//! The capability a bucket key must offer: equality the aggregation can
//! test, a total order and a label for deterministic rendering.
//!
//! The aggregation itself gives bucket keys no meaning: they are grouping
//! values supplied by the classifier. Grouping needs a decidable equality,
//! and the report needs a total order (for the sorted rows) and a textual
//! label (for the row itself), so the three are bundled here as one trait.

use vstd::prelude::*;

verus! {

/// A classification value usable as the grouping key of the report.
pub trait BucketKey: Sized {
    /// The total order the report sorts bucket keys by.
    spec fn le_spec(self, other: Self) -> bool;

    /// The label a report row shows for this bucket key.
    spec fn label_spec(self) -> Seq<char>;

    /// The order relates every pair of keys.
    proof fn lemma_le_total(a: Self, b: Self)
        ensures
            a.le_spec(b) || b.le_spec(a),
    ;

    /// Keys below or equal to each other are equal.
    proof fn lemma_le_antisymmetric(a: Self, b: Self)
        requires
            a.le_spec(b),
            b.le_spec(a),
        ensures
            a == b,
    ;

    /// The order is transitive.
    proof fn lemma_le_transitive(a: Self, b: Self, c: Self)
        requires
            a.le_spec(b),
            b.le_spec(c),
        ensures
            a.le_spec(c),
    ;

    /// Decides the order.
    fn le(&self, other: &Self) -> (r: bool)
        ensures
            r == self.le_spec(*other),
    ;

    /// Decides equality of keys.
    fn eq_key(&self, other: &Self) -> (r: bool)
        ensures
            r == (*self == *other),
    ;

    /// Renders the label.
    fn label(&self) -> (r: String)
        ensures
            r@ == self.label_spec(),
    ;
}

} // verus!
