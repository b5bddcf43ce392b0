use part_replacements::aggregate::{ConditionCodeRecord, Replacement, Replacements};
use part_replacements::classify::{C175Bucket, C175Classifier, C175Tier2};
use part_replacements::work_order::{
    HierarchyError, PreviousWorkOrder, SalesLevel, WorkOrder, WorkOrderStore, WorkType,
};

const CUTOFF: i64 = 736695; // a fixed day number standing for the cutoff date

fn wo(id: u64, parent: Option<u64>, fg: &str) -> WorkOrder {
    WorkOrder {
        id,
        parent,
        create_date: CUTOFF + 100,
        work_type: WorkType::StandardJob,
        sales_level: SalesLevel::BeforeFailure,
        finished_good: String::from(fg),
        core_hours: None,
        previous_work_order: None,
    }
}

fn rec(work_order: u64, part: &str) -> ConditionCodeRecord {
    ConditionCodeRecord {
        work_order,
        part_number: String::from(part),
        condition_code: String::from("replaced"),
    }
}

fn classifier() -> C175Classifier {
    C175Classifier { date_cutoff: CUTOFF }
}

fn bucket_20() -> C175Bucket {
    C175Bucket { variant: C175Tier2::C175_20, core_khours: None }
}

fn bucket_16() -> C175Bucket {
    C175Bucket { variant: C175Tier2::C175_16, core_khours: None }
}

#[test]
fn classifies_tier_20_patterns() {
    for fg in ["2863503", "3659327", "5111398", "5193974", "5144913"] {
        let code = format!("XX-{}-YY", fg);
        assert_eq!(
            C175Tier2::try_from_finished_good(&code),
            Some(C175Tier2::C175_20)
        );
    }
}

#[test]
fn classifies_tier_16_patterns() {
    for fg in ["3659319", "5632124"] {
        let code = format!("A{}B", fg);
        assert_eq!(
            C175Tier2::try_from_finished_good(&code),
            Some(C175Tier2::C175_16)
        );
    }
}

#[test]
fn rejects_unknown_finished_good() {
    assert_eq!(C175Tier2::try_from_finished_good("9999999"), None);
    assert_eq!(C175Tier2::try_from_finished_good(""), None);
    // containment is exact text: a scattered pattern does not match
    assert_eq!(C175Tier2::try_from_finished_good("2-8-6-3-5-0-3"), None);
}

#[test]
fn tier_names() {
    assert_eq!(C175Tier2::C175_16.name(), "C175-16");
    assert_eq!(C175Tier2::C175_20.name(), "C175-20");
}

#[test]
fn classifier_requires_all_conditions() {
    let c = classifier();
    let store = WorkOrderStore::new(vec![
        // created on the cutoff day itself: "strictly after" fails
        WorkOrder { create_date: CUTOFF, ..wo(1, None, "2863503") },
        WorkOrder { work_type: WorkType::OtherJob, ..wo(2, None, "2863503") },
        WorkOrder { sales_level: SalesLevel::Other, ..wo(3, None, "2863503") },
    ])
    .unwrap();
    let records = vec![rec(1, "P1"), rec(2, "P1"), rec(3, "P1")];
    let result = Replacements::new(&store, &records, &c).unwrap();
    assert_eq!(result.num_entries(), 0);
}

#[test]
fn duplicate_identifiers_rejected() {
    assert!(WorkOrderStore::new(vec![wo(7, None, "x"), wo(7, None, "y")]).is_none());
}

#[test]
fn unknown_work_order_is_surfaced() {
    let c = classifier();
    let store = WorkOrderStore::new(vec![wo(1, None, "2863503")]).unwrap();
    let records = vec![rec(42, "P1")];
    let result = Replacements::new(&store, &records, &c);
    assert_eq!(result.unwrap_err(), HierarchyError::UnknownWorkOrder(42));
}

#[test]
fn cyclic_hierarchy_is_surfaced() {
    let c = classifier();
    let store =
        WorkOrderStore::new(vec![wo(1, Some(2), "2863503"), wo(2, Some(1), "2863503")]).unwrap();
    let records = vec![rec(1, "P1")];
    let result = Replacements::new(&store, &records, &c);
    assert!(matches!(
        result.unwrap_err(),
        HierarchyError::CyclicHierarchy(_)
    ));
}

#[test]
fn two_records_one_work_order() {
    // Two condition-code records point (directly or via a child) at one
    // classifying top-level work order: replacements are not capped by the
    // work-order count, and the rendered rate is 200%.
    let c = classifier();
    let store = WorkOrderStore::new(vec![wo(1, None, "2863503"), wo(2, Some(1), "child")])
        .unwrap();
    let records = vec![rec(1, "P1"), rec(2, "P1")];
    let result = Replacements::new(&store, &records, &c).unwrap();
    assert_eq!(result.num_entries(), 1);
    let counts = result.lookup(&bucket_20(), "P1").unwrap();
    assert_eq!(
        counts,
        Replacement { replacements: 2, work_order_count: 1 }
    );
    assert_eq!(counts.rate_percent(), Some(200));
    let text = result.render();
    assert_eq!(
        text,
        "Engine Part Replacements:\n  (C175_20, None) P1: 200% (2 / 1)\n"
    );
}

#[test]
fn child_record_keyed_to_ancestor() {
    // A record that references a child work order is keyed to the bucket of
    // the child's top-level ancestor, never to the child itself.
    let c = classifier();
    let store = WorkOrderStore::new(vec![
        wo(10, None, "3659319"),
        wo(11, Some(10), "no-pattern-here"),
        wo(12, Some(11), "no-pattern-here"),
    ])
    .unwrap();
    let records = vec![rec(12, "RAIL")];
    let result = Replacements::new(&store, &records, &c).unwrap();
    assert_eq!(result.num_entries(), 1);
    let counts = result.lookup(&bucket_16(), "RAIL").unwrap();
    assert_eq!(
        counts,
        Replacement { replacements: 1, work_order_count: 1 }
    );
}

#[test]
fn pass_two_creates_no_rows() {
    // A top-level work order that classifies, with no condition-code record
    // for its bucket, appears nowhere in the result.
    let c = classifier();
    let store = WorkOrderStore::new(vec![wo(1, None, "2863503"), wo(2, None, "3659319")])
        .unwrap();
    let records = vec![rec(1, "P1")];
    let result = Replacements::new(&store, &records, &c).unwrap();
    assert_eq!(result.num_entries(), 1);
    assert!(result.lookup(&bucket_16(), "P1").is_none());
    assert!(result.lookup(&bucket_20(), "P1").is_some());
}

#[test]
fn denominator_counts_only_top_level() {
    // A child work order that would classify on its own fields must never
    // be counted in any denominator.
    let c = classifier();
    let store = WorkOrderStore::new(vec![wo(1, None, "2863503"), wo(2, Some(1), "2863503")])
        .unwrap();
    let records = vec![rec(1, "P1")];
    let result = Replacements::new(&store, &records, &c).unwrap();
    let counts = result.lookup(&bucket_20(), "P1").unwrap();
    assert_eq!(counts.work_order_count, 1);
}

#[test]
fn populated_rows_have_work_orders() {
    // An entry exists only because its record's ancestor classified, and
    // that ancestor is itself counted: no row pairs replacements > 0 with
    // a zero work-order count.
    let c = classifier();
    let store = WorkOrderStore::new(vec![wo(1, None, "5144913"), wo(2, Some(1), "zzz")])
        .unwrap();
    let records = vec![rec(2, "A"), rec(1, "B"), rec(2, "A")];
    let result = Replacements::new(&store, &records, &c).unwrap();
    for (bucket, part) in [(bucket_20(), "A"), (bucket_20(), "B")] {
        let counts = result.lookup(&bucket, part).unwrap();
        assert!(counts.replacements > 0);
        assert!(counts.work_order_count > 0);
    }
}

#[test]
fn aggregation_is_idempotent() {
    let c = classifier();
    let store = WorkOrderStore::new(vec![
        wo(1, None, "2863503"),
        wo(2, None, "3659319"),
        wo(3, Some(1), "child"),
    ])
    .unwrap();
    let records = vec![rec(3, "P1"), rec(2, "P2"), rec(1, "P1")];
    let first = Replacements::new(&store, &records, &c).unwrap();
    let second = Replacements::new(&store, &records, &c).unwrap();
    assert_eq!(first.num_entries(), second.num_entries());
    for (bucket, part) in [(bucket_20(), "P1"), (bucket_16(), "P2")] {
        assert_eq!(first.lookup(&bucket, part), second.lookup(&bucket, part));
    }
    assert_eq!(first.render(), second.render());
}

#[test]
fn rendering_is_deterministic_and_sorted() {
    let c = classifier();
    let store = WorkOrderStore::new(vec![wo(1, None, "2863503"), wo(2, None, "3659319")])
        .unwrap();
    // records arrive in an order unlike the report's
    let records = vec![rec(1, "ZULU"), rec(2, "PART"), rec(1, "ALPHA")];
    let result = Replacements::new(&store, &records, &c).unwrap();
    let text = result.render();
    assert_eq!(text, result.render());
    assert_eq!(
        text,
        "Engine Part Replacements:\n\
         \x20 (C175_16, None) PART: 100% (1 / 1)\n\
         \x20 (C175_20, None) ALPHA: 100% (1 / 1)\n\
         \x20 (C175_20, None) ZULU: 100% (1 / 1)\n"
    );
}

#[test]
fn rate_rounds_to_nearest_percent() {
    let third = Replacement { replacements: 1, work_order_count: 3 };
    assert_eq!(third.rate_percent(), Some(33));
    let two_thirds = Replacement { replacements: 2, work_order_count: 3 };
    assert_eq!(two_thirds.rate_percent(), Some(67));
    let half = Replacement { replacements: 1, work_order_count: 2 };
    assert_eq!(half.rate_percent(), Some(50));
    let exact = Replacement { replacements: 3, work_order_count: 4 };
    assert_eq!(exact.rate_percent(), Some(75));
}

#[test]
fn zero_work_orders_has_no_rate() {
    let orphan = Replacement { replacements: 5, work_order_count: 0 };
    assert_eq!(orphan.rate_percent(), None);
}

#[test]
fn core_hours_split_buckets() {
    // Core hours in thousands are part of the bucket key: work orders of
    // one variant with different core-hour bands make distinct rows.
    let c = classifier();
    let with_hours = WorkOrder { core_hours: Some(5400), ..wo(1, None, "2863503") };
    let without = wo(2, None, "2863503");
    let store = WorkOrderStore::new(vec![with_hours, without]).unwrap();
    let records = vec![rec(1, "P1"), rec(2, "P1")];
    let result = Replacements::new(&store, &records, &c).unwrap();
    assert_eq!(result.num_entries(), 2);
    let banded = C175Bucket { variant: C175Tier2::C175_20, core_khours: Some(5) };
    assert_eq!(
        result.lookup(&banded, "P1").unwrap(),
        Replacement { replacements: 1, work_order_count: 1 }
    );
    let text = result.render();
    assert_eq!(
        text,
        "Engine Part Replacements:\n\
         \x20 (C175_20, None) P1: 100% (1 / 1)\n\
         \x20 (C175_20, Some(5)) P1: 100% (1 / 1)\n"
    );
}

#[test]
fn empty_inputs_render_heading_only() {
    let c = classifier();
    let store = WorkOrderStore::new(vec![]).unwrap();
    let records: Vec<ConditionCodeRecord> = vec![];
    let result = Replacements::new(&store, &records, &c).unwrap();
    assert_eq!(result.num_entries(), 0);
    assert_eq!(result.render(), "Engine Part Replacements:\n");
}

#[test]
fn store_resolves_through_chain() {
    let store = WorkOrderStore::new(vec![
        wo(1, None, "root"),
        wo(2, Some(1), "mid"),
        wo(3, Some(2), "leaf"),
    ])
    .unwrap();
    let top = store.resolve_top_level(3).unwrap();
    assert_eq!(top.id, 1);
    let also_top = store.resolve_top_level(1).unwrap();
    assert_eq!(also_top.id, 1);
}

#[test]
fn previous_work_order_is_carried() {
    let mut order = wo(1, None, "2863503");
    order.previous_work_order = Some(PreviousWorkOrder::CatNew);
    assert_eq!(order.previous_work_order, Some(PreviousWorkOrder::CatNew));
}
