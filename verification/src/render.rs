//! The report renderer: a deterministic, totally ordered textual rendering
//! of one aggregation result.
//!
//! One line per entry, entries sorted ascending by (bucket key, part
//! number); each line shows the bucket key's label, the part number, the
//! replacement rate as a whole percentage rounded to nearest, and the
//! literal fraction. An entry whose work-order count is zero has no finite
//! rate: its rate is rendered as the explicit text "N/A" instead.

use vstd::prelude::*;
use crate::aggregate::{
    key_view, lemma_pairs_map, lemma_pairs_map_finite, pairs_map, Replacement, ReplacementKey,
    Replacements,
};
use crate::bucket::BucketKey;
use crate::strings::{
    dec_digits, dec_str, lemma_str_le_antisymmetric, lemma_str_le_total, lemma_str_le_transitive,
    str_le, str_le_exec,
};

verus! {

/// The report's order on row keys: by bucket first, then by part number.
pub open spec fn key_le<T: BucketKey>(a: (T, Seq<char>), b: (T, Seq<char>)) -> bool {
    if a.0 == b.0 {
        str_le(a.1, b.1)
    } else {
        a.0.le_spec(b.0)
    }
}

/// The row order relates every pair of keys.
pub proof fn lemma_key_le_total<T: BucketKey>(a: (T, Seq<char>), b: (T, Seq<char>))
    ensures
        key_le(a, b) || key_le(b, a),
{
    if a.0 == b.0 {
        lemma_str_le_total(a.1, b.1);
    } else {
        T::lemma_le_total(a.0, b.0);
    }
}

/// Keys below or equal to each other are equal.
pub proof fn lemma_key_le_antisymmetric<T: BucketKey>(a: (T, Seq<char>), b: (T, Seq<char>))
    requires
        key_le(a, b),
        key_le(b, a),
    ensures
        a == b,
{
    if a.0 == b.0 {
        lemma_str_le_antisymmetric(a.1, b.1);
    } else {
        T::lemma_le_antisymmetric(a.0, b.0);
    }
}

/// The row order is transitive.
pub proof fn lemma_key_le_transitive<T: BucketKey>(
    a: (T, Seq<char>),
    b: (T, Seq<char>),
    c: (T, Seq<char>),
)
    requires
        key_le(a, b),
        key_le(b, c),
    ensures
        key_le(a, c),
{
    if a.0 == b.0 && b.0 == c.0 {
        lemma_str_le_transitive(a.1, b.1, c.1);
    } else if a.0 == b.0 {
    } else if b.0 == c.0 {
    } else {
        T::lemma_le_transitive(a.0, b.0, c.0);
        if a.0 == c.0 {
            T::lemma_le_antisymmetric(a.0, b.0);
        }
    }
}

/// The smallest row key of a set of row keys.
pub open spec fn min_key<T: BucketKey>(s: Set<(T, Seq<char>)>) -> (T, Seq<char>) {
    choose|k: (T, Seq<char>)|
        s.contains(k) && forall|j: (T, Seq<char>)| #[trigger] s.contains(j) ==> key_le(k, j)
}

/// Every finite, non-empty set of row keys has a smallest key.
pub proof fn lemma_min_key_exists<T: BucketKey>(s: Set<(T, Seq<char>)>)
    requires
        s.finite(),
        s.len() > 0,
    ensures
        s.contains(min_key(s)),
        forall|j: (T, Seq<char>)| #[trigger] s.contains(j) ==> key_le(min_key(s), j),
    decreases s.len(),
{
    let e = s.choose();
    assert(s.contains(e));
    let rest = s.remove(e);
    if rest.len() == 0 {
        assert forall|j: (T, Seq<char>)| #[trigger] s.contains(j) implies key_le(e, j) by {
            if j != e {
                assert(rest.contains(j));
                assert(rest.len() > 0);
            } else {
                lemma_key_le_total(e, e);
            }
        }
        assert(s.contains(e) && forall|j: (T, Seq<char>)| #[trigger] s.contains(j) ==> key_le(
            e,
            j,
        ));
    } else {
        lemma_min_key_exists(rest);
        let m = min_key(rest);
        if key_le(m, e) {
            assert forall|j: (T, Seq<char>)| #[trigger] s.contains(j) implies key_le(m, j) by {
                if j == e {
                } else {
                    assert(rest.contains(j));
                }
            }
            assert(s.contains(m) && forall|j: (T, Seq<char>)| #[trigger] s.contains(j) ==> key_le(
                m,
                j,
            ));
        } else {
            lemma_key_le_total(m, e);
            assert(key_le(e, m));
            assert forall|j: (T, Seq<char>)| #[trigger] s.contains(j) implies key_le(e, j) by {
                if j == e {
                    lemma_key_le_total(e, e);
                } else {
                    assert(rest.contains(j));
                    assert(key_le(m, j));
                    lemma_key_le_transitive(e, m, j);
                }
            }
            assert(s.contains(e) && forall|j: (T, Seq<char>)| #[trigger] s.contains(j) ==> key_le(
                e,
                j,
            ));
        }
    }
}

/// The row keys of a report in ascending order: repeated extraction of the
/// smallest remaining key.
pub open spec fn sorted_key_seq<T: BucketKey>(s: Set<(T, Seq<char>)>) -> Seq<(T, Seq<char>)>
    decreases s.len(),
    via sorted_key_seq_decreases::<T>
{
    if !s.finite() || s.len() == 0 {
        Seq::empty()
    } else {
        seq![min_key(s)] + sorted_key_seq(s.remove(min_key(s)))
    }
}

#[via_fn]
proof fn sorted_key_seq_decreases<T: BucketKey>(s: Set<(T, Seq<char>)>) {
    if s.finite() && s.len() > 0 {
        lemma_min_key_exists(s);
    }
}

/// The sorted key sequence enumerates the set exactly once, in strictly
/// ascending order.
#[verifier::rlimit(100)]
pub proof fn lemma_sorted_key_seq<T: BucketKey>(s: Set<(T, Seq<char>)>)
    requires
        s.finite(),
    ensures
        sorted_key_seq(s).len() == s.len(),
        forall|i: int|
            0 <= i < sorted_key_seq(s).len() ==> s.contains(#[trigger] sorted_key_seq(s)[i]),
        forall|k: (T, Seq<char>)|
            #[trigger] s.contains(k) ==> exists|i: int|
                0 <= i < sorted_key_seq(s).len() && sorted_key_seq(s)[i] == k,
        forall|i: int, j: int|
            0 <= i < j < sorted_key_seq(s).len() ==> key_le(
                #[trigger] sorted_key_seq(s)[i],
                #[trigger] sorted_key_seq(s)[j],
            ) && sorted_key_seq(s)[i] != sorted_key_seq(s)[j],
    decreases s.len(),
{
    if s.len() > 0 {
        lemma_min_key_exists(s);
        let m = min_key(s);
        let rest = s.remove(m);
        lemma_sorted_key_seq(rest);
        let sorted = sorted_key_seq(s);
        let tail = sorted_key_seq(rest);
        assert(sorted == seq![m] + tail);
        assert(sorted.len() == 1 + tail.len());
        assert forall|i: int| 0 <= i < sorted.len() implies s.contains(#[trigger] sorted[i]) by {
            if i == 0 {
                assert(sorted[0] == m);
            } else {
                assert(sorted[i] == tail[i - 1]);
                assert(rest.contains(tail[i - 1]));
            }
        }
        assert forall|k: (T, Seq<char>)| #[trigger] s.contains(k) implies exists|i: int|
            0 <= i < sorted.len() && sorted[i] == k by {
            if k == m {
                assert(sorted[0] == k);
            } else {
                assert(rest.contains(k));
                let i = choose|i: int| 0 <= i < tail.len() && tail[i] == k;
                assert(sorted[i + 1] == k);
            }
        }
        assert forall|i: int, j: int| 0 <= i < j < sorted.len() implies key_le(
            #[trigger] sorted[i],
            #[trigger] sorted[j],
        ) && sorted[i] != sorted[j] by {
            if i == 0 {
                assert(sorted[0] == m);
                assert(sorted[j] == tail[j - 1]);
                assert(rest.contains(tail[j - 1]));
                assert(s.contains(tail[j - 1]));
                assert(key_le(m, sorted[j]));
                assert(sorted[j] != m);
            } else {
                assert(sorted[i] == tail[i - 1]);
                assert(sorted[j] == tail[j - 1]);
            }
        }
    }
}

/// The replacement rate as a percentage rounded to the nearest whole
/// percent (halves away from zero); meaningful only when some work order
/// matched.
pub open spec fn pct_round(r: nat, w: nat) -> nat
    recommends
        w > 0,
{
    (200 * r + w) / (2 * w)
}

/// The rendered counters of one row: the rate and the literal fraction.
/// With no matching work order the rate is not a number; the report shows
/// the explicit text "N/A" for it.
pub open spec fn counter_text(c: Replacement) -> Seq<char> {
    if c.work_order_count == 0 {
        "N/A ("@ + dec_digits(c.replacements as nat) + " / 0)"@
    } else {
        dec_digits(pct_round(c.replacements as nat, c.work_order_count as nat)) + "% ("@
            + dec_digits(c.replacements as nat) + " / "@ + dec_digits(
            c.work_order_count as nat,
        ) + ")"@
    }
}

/// One report row.
pub open spec fn row_text<T: BucketKey>(k: (T, Seq<char>), c: Replacement) -> Seq<char> {
    "  "@ + k.0.label_spec() + " "@ + k.1 + ": "@ + counter_text(c) + "\n"@
}

/// The rows for a sequence of keys, in that order.
pub open spec fn rows_text<T: BucketKey>(
    ks: Seq<(T, Seq<char>)>,
    m: Map<(T, Seq<char>), Replacement>,
) -> Seq<char>
    decreases ks.len(),
{
    if ks.len() == 0 {
        Seq::empty()
    } else {
        row_text(ks.first(), m[ks.first()]) + rows_text(ks.drop_first(), m)
    }
}

/// Appending a key to the row list appends its row to the text.
pub proof fn lemma_rows_text_push<T: BucketKey>(
    ks: Seq<(T, Seq<char>)>,
    m: Map<(T, Seq<char>), Replacement>,
    k: (T, Seq<char>),
)
    ensures
        rows_text(ks.push(k), m) == rows_text(ks, m) + row_text(k, m[k]),
    decreases ks.len(),
{
    if ks.len() == 0 {
        assert(ks.push(k).len() == 1);
        assert(ks.push(k).first() == k);
        assert(ks.push(k).drop_first() =~= Seq::<(T, Seq<char>)>::empty());
        assert(rows_text(Seq::<(T, Seq<char>)>::empty(), m) == Seq::<char>::empty());
        assert(rows_text(ks, m) == Seq::<char>::empty());
        assert(rows_text(ks.push(k), m) == row_text(k, m[k]) + Seq::<char>::empty());
        assert(rows_text(ks.push(k), m) =~= rows_text(ks, m) + row_text(k, m[k]));
    } else {
        assert(ks.push(k).first() == ks.first());
        assert(ks.push(k).drop_first() =~= ks.drop_first().push(k));
        lemma_rows_text_push(ks.drop_first(), m, k);
        assert(rows_text(ks.push(k), m) == row_text(ks.first(), m[ks.first()]) + (rows_text(
            ks.drop_first(),
            m,
        ) + row_text(k, m[k])));
        assert((row_text(ks.first(), m[ks.first()]) + (rows_text(ks.drop_first(), m) + row_text(
            k,
            m[k],
        ))) =~= (row_text(ks.first(), m[ks.first()]) + rows_text(ks.drop_first(), m)) + row_text(
            k,
            m[k],
        ));
        assert(rows_text(ks, m) == row_text(ks.first(), m[ks.first()]) + rows_text(
            ks.drop_first(),
            m,
        ));
        assert(rows_text(ks.push(k), m) == rows_text(ks, m) + row_text(k, m[k]));
    }
}

/// The whole report for an aggregation result: a heading, then one row per
/// entry in ascending key order.
pub open spec fn render_spec<T: BucketKey>(m: Map<(T, Seq<char>), Replacement>) -> Seq<char> {
    "Engine Part Replacements:\n"@ + rows_text(sorted_key_seq(m.dom()), m)
}

impl Replacement {
    /// The replacement rate as a whole percentage rounded to nearest, or
    /// nothing when no work order matched (the rate is not a number then).
    pub fn rate_percent(&self) -> (r: Option<u128>)
        ensures
            match r {
                Some(p) => self.work_order_count > 0 && p as nat == pct_round(
                    self.replacements as nat,
                    self.work_order_count as nat,
                ),
                None => self.work_order_count == 0,
            },
    {
        if self.work_order_count == 0 {
            None
        } else {
            let num: u128 = 200u128 * (self.replacements as u128) + (
            self.work_order_count as u128);
            let den: u128 = 2u128 * (self.work_order_count as u128);
            Some(num / den)
        }
    }
}

/// Decides the row order.
fn key_le_exec<T: BucketKey>(ka: &ReplacementKey<T>, kb: &ReplacementKey<T>) -> (r: bool)
    ensures
        r == key_le(key_view(*ka), key_view(*kb)),
{
    if ka.bucket.eq_key(&kb.bucket) {
        str_le_exec(ka.part.as_str(), kb.part.as_str())
    } else {
        ka.bucket.le(&kb.bucket)
    }
}

/// Renders the counters of one row.
fn counter_str(c: Replacement) -> (r: String)
    ensures
        r@ == counter_text(c),
{
    if c.work_order_count == 0 {
        let s = String::from_str("N/A (");
        let d = dec_str(c.replacements as u128);
        let s = s.concat(d.as_str()).concat(" / 0)");
        proof {
            assert(s@ =~= counter_text(c));
        }
        s
    } else {
        let num: u128 = 200u128 * (c.replacements as u128) + (c.work_order_count as u128);
        let den: u128 = 2u128 * (c.work_order_count as u128);
        let pct: u128 = num / den;
        let s = dec_str(pct);
        let s = s.concat("% (");
        let d1 = dec_str(c.replacements as u128);
        let s = s.concat(d1.as_str()).concat(" / ");
        let d2 = dec_str(c.work_order_count as u128);
        let s = s.concat(d2.as_str()).concat(")");
        proof {
            assert(pct as nat == pct_round(c.replacements as nat, c.work_order_count as nat));
            assert(s@ =~= counter_text(c));
        }
        s
    }
}

/// Renders one report row.
fn row_str<T: BucketKey>(key: &ReplacementKey<T>, c: Replacement) -> (r: String)
    ensures
        r@ == row_text(key_view(*key), c),
{
    let s = String::from_str("  ");
    let lbl = key.bucket.label();
    let s = s.concat(lbl.as_str()).concat(" ").concat(key.part.as_str()).concat(": ");
    let ct = counter_str(c);
    let s = s.concat(ct.as_str()).concat("\n");
    proof {
        assert(s@ =~= row_text(key_view(*key), c));
    }
    s
}


/// A position whose key is below every listed key holds the smallest
/// remaining key.
proof fn lemma_selected_min<T: BucketKey>(
    ks: Seq<(T, Seq<char>)>,
    idxs: Seq<usize>,
    rem: Set<(T, Seq<char>)>,
    best: int,
)
    requires
        rem.finite(),
        0 <= best < idxs.len(),
        forall|x: int| 0 <= x < idxs.len() ==> #[trigger] idxs[x] < ks.len(),
        forall|x: int| 0 <= x < idxs.len() ==> rem.contains(ks[#[trigger] idxs[x] as int]),
        forall|k: (T, Seq<char>)|
            #[trigger] rem.contains(k) ==> exists|x: int|
                0 <= x < idxs.len() && ks[#[trigger] idxs[x] as int] == k,
        forall|y: int|
            0 <= y < idxs.len() ==> key_le(ks[idxs[best] as int], ks[#[trigger] idxs[y] as int]),
    ensures
        rem.len() > 0,
        ks[idxs[best] as int] == min_key(rem),
{
    let kmin = ks[idxs[best] as int];
    assert(rem.contains(kmin));
    if rem.len() == 0 {
        rem.lemma_len0_is_empty();
    }
    lemma_min_key_exists(rem);
    assert forall|j: (T, Seq<char>)| #[trigger] rem.contains(j) implies key_le(kmin, j) by {
        let y = choose|y: int| 0 <= y < idxs.len() && ks[#[trigger] idxs[y] as int] == j;
    }
    lemma_key_le_antisymmetric(kmin, min_key(rem));
}

/// Taking the smallest remaining key advances the sorted enumeration by
/// one position.
proof fn lemma_advance<T: BucketKey>(
    sorted: Seq<(T, Seq<char>)>,
    rem: Set<(T, Seq<char>)>,
    done: int,
)
    requires
        rem.finite(),
        rem.len() > 0,
        sorted_key_seq(rem) == sorted.skip(done),
        0 <= done <= sorted.len(),
    ensures
        done < sorted.len(),
        sorted[done] == min_key(rem),
        sorted_key_seq(rem.remove(min_key(rem))) == sorted.skip(done + 1),
        sorted.take(done + 1) == sorted.take(done).push(min_key(rem)),
{
    lemma_min_key_exists(rem);
    let kmin = min_key(rem);
    assert(sorted_key_seq(rem) == seq![kmin] + sorted_key_seq(rem.remove(kmin)));
    assert(sorted.skip(done).len() == sorted.len() - done);
    assert(sorted.skip(done)[0] == kmin);
    assert(sorted.skip(done)[0] == sorted[done]);
    assert((seq![kmin] + sorted_key_seq(rem.remove(kmin))).drop_first() =~= sorted_key_seq(
        rem.remove(kmin),
    ));
    assert(sorted.skip(done).drop_first() =~= sorted.skip(done + 1));
    assert(sorted.take(done + 1) =~= sorted.take(done).push(sorted[done]));
}

/// Removing the entry at one position by a swap with the last keeps the
/// listed positions in step with the remaining keys.
proof fn lemma_remove_one<T: BucketKey>(
    ks: Seq<(T, Seq<char>)>,
    idxs0: Seq<usize>,
    idxs1: Seq<usize>,
    rem0: Set<(T, Seq<char>)>,
    best: int,
)
    requires
        0 <= best < idxs0.len(),
        idxs1 == idxs0.update(best, idxs0.last()).drop_last(),
        forall|x: int| 0 <= x < idxs0.len() ==> #[trigger] idxs0[x] < ks.len(),
        forall|x: int, y: int| 0 <= x < y < idxs0.len() ==> idxs0[x] != idxs0[y],
        forall|i: int, j: int| 0 <= i < j < ks.len() ==> ks[i] != ks[j],
        forall|x: int| 0 <= x < idxs0.len() ==> rem0.contains(ks[#[trigger] idxs0[x] as int]),
        forall|k: (T, Seq<char>)|
            #[trigger] rem0.contains(k) ==> exists|x: int|
                0 <= x < idxs0.len() && ks[#[trigger] idxs0[x] as int] == k,
    ensures
        forall|x: int| 0 <= x < idxs1.len() ==> #[trigger] idxs1[x] < ks.len(),
        forall|x: int, y: int| 0 <= x < y < idxs1.len() ==> idxs1[x] != idxs1[y],
        forall|x: int|
            0 <= x < idxs1.len() ==> rem0.remove(ks[idxs0[best] as int]).contains(
                ks[#[trigger] idxs1[x] as int],
            ),
        forall|k: (T, Seq<char>)|
            #[trigger] rem0.remove(ks[idxs0[best] as int]).contains(k) ==> exists|x: int|
                0 <= x < idxs1.len() && ks[#[trigger] idxs1[x] as int] == k,
{
    let kmin = ks[idxs0[best] as int];
    let rem1 = rem0.remove(kmin);
    assert forall|p2: int, q2: int| 0 <= p2 < q2 < idxs1.len() implies idxs1[p2] != idxs1[q2] by {
        assert(idxs1[p2] == idxs0.update(best, idxs0.last())[p2]);
        assert(idxs1[q2] == idxs0.update(best, idxs0.last())[q2]);
    }
    assert forall|y: int| 0 <= y < idxs1.len() implies rem1.contains(
        ks[#[trigger] idxs1[y] as int],
    ) by {
        let oy: int = if y == best {
            idxs0.len() - 1
        } else {
            y
        };
        assert(idxs1[y] == idxs0[oy]);
        assert(rem0.contains(ks[idxs0[oy] as int]));
        assert(oy != best);
        assert(idxs0[oy] != idxs0[best]);
        assert(ks[idxs0[oy] as int] != kmin);
    }
    assert forall|k: (T, Seq<char>)| #[trigger] rem1.contains(k) implies exists|x: int|
        0 <= x < idxs1.len() && ks[#[trigger] idxs1[x] as int] == k by {
        assert(rem0.contains(k));
        let oy = choose|oy: int| 0 <= oy < idxs0.len() && ks[#[trigger] idxs0[oy] as int] == k;
        assert(oy != best);
        if oy == idxs0.len() - 1 {
            assert(idxs1[best] == idxs0[oy]);
            assert(ks[idxs1[best] as int] == k);
        } else {
            assert(idxs1[oy] == idxs0[oy]);
            assert(ks[idxs1[oy] as int] == k);
        }
    }
}

impl<T: BucketKey> Replacements<T> {

    /// Renders the aggregation result as the textual report: a function of
    /// the result's mathematical value alone, so re-rendering an equal
    /// result always yields identical output.
    #[verifier::rlimit(100)]
    #[verifier::spinoff_prover]
    pub fn render(&self) -> (r: String)
        requires
            self.wf(),
        ensures
            r@ == render_spec(self@),
    {
        let ghost m = self@;
        proof {
            lemma_pairs_map(self.entry_keys(), self.entry_counts());
            lemma_pairs_map_finite(self.entry_keys(), self.entry_counts());
        }
        let ghost sorted = sorted_key_seq(m.dom());
        let n = self.num_entries();
        let mut idxs: Vec<usize> = Vec::new();
        let mut q: usize = 0;
        while q < n
            invariant
                0 <= q <= n,
                idxs@.len() == q,
                forall|x: int| 0 <= x < q ==> #[trigger] idxs@[x] == x,
            decreases n - q,
        {
            idxs.push(q);
            q = q + 1;
        }
        let mut out = String::from_str("Engine Part Replacements:\n");
        let ghost mut rem = m.dom();
        let ghost mut done: int = 0;
        proof {
            assert forall|k: (T, Seq<char>)| rem.contains(k) implies exists|x: int|
                0 <= x < idxs@.len() && self.entry_keys()[#[trigger] idxs@[x] as int] == k by {
                let i = choose|i: int|
                    0 <= i < self.entry_keys().len() && #[trigger] self.entry_keys()[i] == k;
                assert(idxs@[i] == i);
                assert(self.entry_keys()[idxs@[i] as int] == k);
            }
            assert forall|x: int| 0 <= x < idxs@.len() implies rem.contains(
                self.entry_keys()[#[trigger] idxs@[x] as int],
            ) by {
                assert(idxs@[x] == x);
                assert(pairs_map(self.entry_keys(), self.entry_counts()).contains_key(
                    self.entry_keys()[x],
                ));
            }
            assert(sorted.skip(0) =~= sorted);
            assert(sorted.take(0) =~= Seq::<(T, Seq<char>)>::empty());
            assert(out@ =~= "Engine Part Replacements:\n"@ + rows_text(sorted.take(0), m));
        }
        loop
            invariant
                self.wf(),
                m == self@,
                n == self.entry_keys().len(),
                sorted == sorted_key_seq(m.dom()),
                rem.finite(),
                idxs@.len() <= n,
                forall|x: int| 0 <= x < idxs@.len() ==> #[trigger] idxs@[x] < n,
                forall|x: int, y: int| 0 <= x < y < idxs@.len() ==> idxs@[x] != idxs@[y],
                forall|x: int|
                    0 <= x < idxs@.len() ==> rem.contains(
                        self.entry_keys()[#[trigger] idxs@[x] as int],
                    ),
                forall|k: (T, Seq<char>)|
                    #[trigger] rem.contains(k) ==> exists|x: int|
                        0 <= x < idxs@.len() && self.entry_keys()[#[trigger] idxs@[x] as int] == k,
                forall|k: (T, Seq<char>)| #[trigger] rem.contains(k) ==> m.dom().contains(k),
                sorted_key_seq(rem) == sorted.skip(done),
                0 <= done <= sorted.len(),
                out@ == "Engine Part Replacements:\n"@ + rows_text(sorted.take(done), m),
            decreases idxs@.len(),
        {
            let len = idxs.len();
            if len == 0 {
                proof {
                    assert(rem =~= Set::empty());
                    assert(sorted_key_seq(rem) == Seq::<(T, Seq<char>)>::empty());
                    assert(sorted.skip(done).len() == 0);
                    assert(done == sorted.len());
                    assert(sorted.take(done) =~= sorted);
                }
                return out;
            }
            proof {
                assert(rem.contains(self.entry_keys()[idxs@[0] as int]));
                if rem.len() == 0 {
                    rem.lemma_len0_is_empty();
                    assert(false);
                }
                lemma_key_le_total(
                    self.entry_keys()[idxs@[0] as int],
                    self.entry_keys()[idxs@[0] as int],
                );
            }
            let mut best: usize = 0;
            let mut x: usize = 1;
            while x < len
                invariant
                    1 <= x <= len,
                    best < x,
                    len == idxs@.len(),
                    self.wf(),
                    n == self.entry_keys().len(),
                    forall|y: int| 0 <= y < idxs@.len() ==> #[trigger] idxs@[y] < n,
                    forall|y: int|
                        0 <= y < x ==> key_le(
                            self.entry_keys()[idxs@[best as int] as int],
                            self.entry_keys()[#[trigger] idxs@[y] as int],
                        ),
                decreases len - x,
            {
                let cand_le = key_le_exec(self.key_at(idxs[x]), self.key_at(idxs[best]));
                if cand_le {
                    let ghost old_best = best as int;
                    best = x;
                    proof {
                        assert forall|y: int|
                            0 <= y < x + 1 implies key_le(
                            self.entry_keys()[idxs@[best as int] as int],
                            self.entry_keys()[#[trigger] idxs@[y] as int],
                        ) by {
                            if y < x {
                                lemma_key_le_transitive(
                                    self.entry_keys()[idxs@[best as int] as int],
                                    self.entry_keys()[idxs@[old_best] as int],
                                    self.entry_keys()[idxs@[y] as int],
                                );
                            } else {
                                lemma_key_le_total(
                                    self.entry_keys()[idxs@[best as int] as int],
                                    self.entry_keys()[idxs@[best as int] as int],
                                );
                            }
                        }
                    }
                } else {
                    proof {
                        lemma_key_le_total(
                            self.entry_keys()[idxs@[best as int] as int],
                            self.entry_keys()[idxs@[x as int] as int],
                        );
                    }
                }
                x = x + 1;
            }
            let ghost kmin = self.entry_keys()[idxs@[best as int] as int];
            proof {
                lemma_selected_min(self.entry_keys(), idxs@, rem, best as int);
                lemma_advance(sorted, rem, done);
                assert(sorted[done] == kmin);
            }
            let pos = idxs[best];
            let row = row_str(self.key_at(pos), self.count_at(pos));
            out.append(row.as_str());
            proof {
                lemma_pairs_map(self.entry_keys(), self.entry_counts());
                assert(m.contains_key(kmin));
                assert(m[kmin] == self.entry_counts()[pos as int]);
                lemma_rows_text_push(sorted.take(done), m, kmin);
                assert(sorted.take(done + 1) =~= sorted.take(done).push(kmin));
                assert(("Engine Part Replacements:\n"@ + rows_text(sorted.take(done), m)) + row@
                    =~= "Engine Part Replacements:\n"@ + (rows_text(sorted.take(done), m)
                    + row_text(kmin, m[kmin])));
                assert(out@ == "Engine Part Replacements:\n"@ + rows_text(
                    sorted.take(done + 1),
                    m,
                ));
            }
            let ghost idxs0 = idxs@;
            idxs.swap_remove(best);
            proof {
                assert(idxs@ =~= idxs0.update(best as int, idxs0.last()).drop_last());
                lemma_remove_one(self.entry_keys(), idxs0, idxs@, rem, best as int);
                rem = rem.remove(kmin);
                done = done + 1;
            }
        }
    }
}

} // verus!
