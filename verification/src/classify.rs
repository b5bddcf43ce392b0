//! The variant classifier: a pure predicate from a top-level work order to
//! at most one bucket key.
//!
//! The aggregation is generic over the classifier; the concrete classifier
//! of this system selects work orders created strictly after a cutoff date,
//! of standard job type and of "before failure" sales level, derives the
//! engine variant from a fixed, ordered set of substring patterns over the
//! finished-good code (first matching class wins), and pairs the variant
//! with the unit's core hours in thousands.

use vstd::prelude::*;
use crate::bucket::BucketKey;
use crate::strings::{contains_sub, contains_exec, dec_digits, dec_str};
use crate::work_order::WorkOrder;

verus! {

/// Maps a top-level work order to at most one bucket key. The predicate is
/// pure: the executable decision must equal its specification on every
/// input, so repeated invocations over the same data always agree.
pub trait Classifier<T>: Sized {
    /// The classification as a mathematical function.
    spec fn classify_spec(&self, wo: WorkOrder) -> Option<T>;

    /// Decides the classification.
    fn classify(&self, wo: &WorkOrder) -> (r: Option<T>)
        ensures
            r == self.classify_spec(*wo),
    ;
}

/// The two C175 tier-2 engine variants this system reports on.
#[derive(Debug, Clone, Copy, PartialEq, Eq, Hash, Structural)]
pub enum C175Tier2 {
    C175_16,
    C175_20,
}

/// The rank that orders the variants in the report.
pub open spec fn tier_rank(t: C175Tier2) -> int {
    match t {
        C175Tier2::C175_16 => 0,
        C175Tier2::C175_20 => 1,
    }
}

/// The variant's name in a report row.
pub open spec fn tier_debug_label(t: C175Tier2) -> Seq<char> {
    match t {
        C175Tier2::C175_16 => "C175_16"@,
        C175Tier2::C175_20 => "C175_20"@,
    }
}

/// The variant's human-readable name.
pub open spec fn tier_name(t: C175Tier2) -> Seq<char> {
    match t {
        C175Tier2::C175_16 => "C175-16"@,
        C175Tier2::C175_20 => "C175-20"@,
    }
}

/// The engine variant a finished-good code belongs to: the first class one
/// of whose patterns occurs in the code, tested in fixed priority order;
/// containment is case-sensitive, exact-text containment.
pub open spec fn tier_of_finished_good(fg: Seq<char>) -> Option<C175Tier2> {
    if contains_sub(fg, "2863503"@) || contains_sub(fg, "3659327"@) || contains_sub(
        fg,
        "5111398"@,
    ) || contains_sub(fg, "5193974"@) || contains_sub(fg, "5144913"@) {
        Some(C175Tier2::C175_20)
    } else if contains_sub(fg, "3659319"@) || contains_sub(fg, "5632124"@) {
        Some(C175Tier2::C175_16)
    } else {
        None
    }
}

impl C175Tier2 {
    /// Derives the variant from a finished-good code, or nothing when no
    /// pattern of either class occurs in it.
    pub fn try_from_finished_good(fg: &str) -> (r: Option<C175Tier2>)
        ensures
            r == tier_of_finished_good(fg@),
    {
        if contains_exec(fg, "2863503") || contains_exec(fg, "3659327") || contains_exec(
            fg,
            "5111398",
        ) || contains_exec(fg, "5193974") || contains_exec(fg, "5144913") {
            Some(C175Tier2::C175_20)
        } else if contains_exec(fg, "3659319") || contains_exec(fg, "5632124") {
            Some(C175Tier2::C175_16)
        } else {
            None
        }
    }

    /// The variant's human-readable name.
    pub fn name(&self) -> (r: String)
        ensures
            r@ == tier_name(*self),
    {
        match self {
            C175Tier2::C175_16 => String::from_str("C175-16"),
            C175Tier2::C175_20 => String::from_str("C175-20"),
        }
    }
}

/// The bucket key of the concrete classifier: an engine variant together
/// with the unit's core hours in thousands, when known.
#[derive(Debug, Clone, Copy, PartialEq, Eq, Hash)]
pub struct C175Bucket {
    /// The engine variant.
    pub variant: C175Tier2,
    /// Core hours of the unit divided by one thousand, when known.
    pub core_khours: Option<u64>,
}

/// Order on optional values: absent sorts before present, present values
/// sort by their numeric order.
pub open spec fn opt_u64_le(a: Option<u64>, b: Option<u64>) -> bool {
    match a {
        None => true,
        Some(x) => match b {
            None => false,
            Some(y) => x <= y,
        },
    }
}

/// The label of an optional thousands-of-core-hours value.
pub open spec fn khours_label(k: Option<u64>) -> Seq<char> {
    match k {
        None => "None"@,
        Some(h) => "Some("@ + dec_digits(h as nat) + ")"@,
    }
}

impl BucketKey for C175Bucket {
    open spec fn le_spec(self, other: Self) -> bool {
        if self.variant != other.variant {
            tier_rank(self.variant) < tier_rank(other.variant)
        } else {
            opt_u64_le(self.core_khours, other.core_khours)
        }
    }

    open spec fn label_spec(self) -> Seq<char> {
        "("@ + tier_debug_label(self.variant) + ", "@ + khours_label(self.core_khours) + ")"@
    }

    proof fn lemma_le_total(a: Self, b: Self) {
    }

    proof fn lemma_le_antisymmetric(a: Self, b: Self) {
        assert(a.variant == b.variant);
        assert(a.core_khours == b.core_khours);
    }

    proof fn lemma_le_transitive(a: Self, b: Self, c: Self) {
    }

    fn le(&self, other: &Self) -> (r: bool) {
        let self_rank: u8 = match self.variant {
            C175Tier2::C175_16 => 0,
            C175Tier2::C175_20 => 1,
        };
        let other_rank: u8 = match other.variant {
            C175Tier2::C175_16 => 0,
            C175Tier2::C175_20 => 1,
        };
        if self_rank != other_rank {
            self_rank < other_rank
        } else {
            match self.core_khours {
                None => true,
                Some(x) => match other.core_khours {
                    None => false,
                    Some(y) => x <= y,
                },
            }
        }
    }

    fn eq_key(&self, other: &Self) -> (r: bool) {
        let variant_eq = match (self.variant, other.variant) {
            (C175Tier2::C175_16, C175Tier2::C175_16) => true,
            (C175Tier2::C175_20, C175Tier2::C175_20) => true,
            _ => false,
        };
        if !variant_eq {
            return false;
        }
        match (self.core_khours, other.core_khours) {
            (None, None) => true,
            (Some(x), Some(y)) => x == y,
            _ => false,
        }
    }

    fn label(&self) -> (r: String) {
        let s = String::from_str("(");
        let s = match self.variant {
            C175Tier2::C175_16 => s.concat("C175_16"),
            C175Tier2::C175_20 => s.concat("C175_20"),
        };
        let s = s.concat(", ");
        let s = match self.core_khours {
            None => s.concat("None"),
            Some(h) => {
                let d = dec_str(h as u128);
                s.concat("Some(").concat(d.as_str()).concat(")")
            },
        };
        let s = s.concat(")");
        proof {
            assert(s@ =~= self.label_spec());
        }
        s
    }
}

/// The concrete classifier of this system.
pub struct C175Classifier {
    /// Work orders created on or before this day number are excluded.
    pub date_cutoff: i64,
}

/// Core hours in thousands, when core hours are known.
pub open spec fn spec_khours(h: Option<u64>) -> Option<u64> {
    match h {
        None => None,
        Some(hours) => Some((hours / 1000) as u64),
    }
}

impl Classifier<C175Bucket> for C175Classifier {
    open spec fn classify_spec(&self, wo: WorkOrder) -> Option<C175Bucket> {
        if wo.create_date > self.date_cutoff && wo.work_type is StandardJob
            && wo.sales_level is BeforeFailure {
            match tier_of_finished_good(wo.finished_good@) {
                Some(v) => Some(
                    C175Bucket { variant: v, core_khours: spec_khours(wo.core_hours) },
                ),
                None => None,
            }
        } else {
            None
        }
    }

    fn classify(&self, wo: &WorkOrder) -> (r: Option<C175Bucket>) {
        if wo.create_date > self.date_cutoff && wo.work_type.is_standard_job() && matches!(
            wo.sales_level,
            crate::work_order::SalesLevel::BeforeFailure
        ) {
            match C175Tier2::try_from_finished_good(wo.finished_good.as_str()) {
                Some(v) => {
                    let khours = match wo.core_hours {
                        None => None,
                        Some(hours) => Some(hours / 1000),
                    };
                    Some(C175Bucket { variant: v, core_khours: khours })
                },
                None => None,
            }
        } else {
            None
        }
    }
}

} // verus!
