//! Work orders and the indexed store that resolves any work order to its
//! top-level ancestor.
//!
//! Work orders form a forest: a record with no parent identifier is
//! top-level, and every other record points at its parent by identifier.
//! The store guards ancestor resolution against identifiers that are absent
//! and against corrupt (cyclic) parent chains by bounding the traversal by
//! the number of loaded records.

use vstd::prelude::*;

verus! {

/// The job kind of a work order; only standard jobs take part in the
/// variant classification.
#[derive(Debug, Clone, Copy, PartialEq, Eq, Structural)]
pub enum WorkType {
    StandardJob,
    OtherJob,
}

impl WorkType {
    /// Whether this work order is a standard job.
    pub fn is_standard_job(&self) -> (r: bool)
        ensures
            r == (*self is StandardJob),
    {
        match self {
            WorkType::StandardJob => true,
            WorkType::OtherJob => false,
        }
    }
}

/// The sales-level classification of a work order.
#[derive(Debug, Clone, Copy, PartialEq, Eq, Structural)]
pub enum SalesLevel {
    BeforeFailure,
    Other,
}

/// The classification of the unit a work order was opened on, when a
/// previous work order is known.
#[derive(Debug, Clone, Copy, PartialEq, Eq, Structural)]
pub enum PreviousWorkOrder {
    CatNew,
    Other,
}

/// One loaded work-order record. Creation dates are day numbers, so that
/// "strictly after" a cutoff date is an integer comparison.
#[derive(Debug, Clone)]
pub struct WorkOrder {
    /// Unique identifier of the record within a store.
    pub id: u64,
    /// Identifier of the parent work order; `None` for a top-level record.
    pub parent: Option<u64>,
    /// Creation date as a day number.
    pub create_date: i64,
    /// Job kind.
    pub work_type: WorkType,
    /// Sales-level classification.
    pub sales_level: SalesLevel,
    /// Finished-good code, an opaque identifier the classifier matches
    /// substrings against.
    pub finished_good: String,
    /// Core hours of the unit, when known.
    pub core_hours: Option<u64>,
    /// Classification of the previous work order on the unit, when known.
    pub previous_work_order: Option<PreviousWorkOrder>,
}

/// A hierarchy-resolution failure: the outcomes the aggregation surfaces to
/// its caller rather than dropping data.
#[derive(Debug, Clone, Copy, PartialEq, Eq, Structural)]
pub enum HierarchyError {
    /// A record or a parent pointer names an identifier absent from the
    /// store; the payload is that identifier.
    UnknownWorkOrder(u64),
    /// A parent chain does not reach a top-level record within as many steps
    /// as the store has records, so it must revisit an identifier; the
    /// payload is the identifier at which traversal gave up.
    CyclicHierarchy(u64),
}

/// No two records of a well-formed store share an identifier.
pub open spec fn ids_unique(orders: Seq<WorkOrder>) -> bool {
    forall|i: int, j: int| 0 <= i < j < orders.len() ==> orders[i].id != orders[j].id
}

/// The lookup index of a store: each identifier maps to the record that
/// carries it (the later record, were identifiers ever repeated).
pub open spec fn id_map(orders: Seq<WorkOrder>) -> Map<u64, WorkOrder>
    decreases orders.len(),
{
    if orders.len() == 0 {
        Map::empty()
    } else {
        id_map(orders.drop_last()).insert(orders.last().id, orders.last())
    }
}

/// The identifiers in the lookup index are exactly the identifiers of the
/// records, and under unique identifiers each identifier maps to its record.
pub proof fn lemma_id_map(orders: Seq<WorkOrder>)
    ensures
        forall|id: u64|
            id_map(orders).contains_key(id) <==> exists|i: int|
                0 <= i < orders.len() && #[trigger] orders[i].id == id,
        ids_unique(orders) ==> forall|i: int|
            0 <= i < orders.len() ==> id_map(orders).contains_key(#[trigger] orders[i].id)
                && id_map(orders)[orders[i].id] == orders[i],
    decreases orders.len(),
{
    if orders.len() > 0 {
        lemma_id_map(orders.drop_last());
        assert(id_map(orders) == id_map(orders.drop_last()).insert(
            orders.last().id,
            orders.last(),
        ));
        assert forall|id: u64| id_map(orders).contains_key(id) implies exists|i: int|
            0 <= i < orders.len() && #[trigger] orders[i].id == id by {
            if id == orders.last().id {
                assert(orders[orders.len() - 1].id == id);
            } else {
                assert(id_map(orders.drop_last()).contains_key(id));
                let i = choose|i: int|
                    0 <= i < orders.drop_last().len() && #[trigger] orders.drop_last()[i].id == id;
                assert(orders.drop_last()[i] == orders[i]);
                assert(orders[i].id == id);
            }
        }
        assert forall|id: u64|
            (exists|i: int| 0 <= i < orders.len() && #[trigger] orders[i].id == id) implies id_map(
            orders,
        ).contains_key(id) by {
            let i = choose|i: int| 0 <= i < orders.len() && #[trigger] orders[i].id == id;
            if i < orders.len() - 1 {
                assert(orders.drop_last()[i].id == id);
            }
        }
        if ids_unique(orders) {
            assert(ids_unique(orders.drop_last()));
            assert forall|i: int| 0 <= i < orders.len() implies id_map(orders).contains_key(
                #[trigger] orders[i].id,
            ) && id_map(orders)[orders[i].id] == orders[i] by {
                if i < orders.len() - 1 {
                    assert(orders.drop_last()[i].id == orders[i].id);
                    assert(orders[i].id != orders.last().id);
                }
            }
        }
    }
}

/// Follows the parent chain from `id` for at most `fuel` steps: the record
/// reached when its parent field is empty, or the failure met on the way.
pub open spec fn resolve_spec(m: Map<u64, WorkOrder>, id: u64, fuel: nat) -> Result<
    WorkOrder,
    HierarchyError,
>
    decreases fuel,
{
    if !m.contains_key(id) {
        Err(HierarchyError::UnknownWorkOrder(id))
    } else {
        match m[id].parent {
            None => Ok(m[id]),
            Some(p) => if fuel == 0 {
                Err(HierarchyError::CyclicHierarchy(id))
            } else {
                resolve_spec(m, p, (fuel - 1) as nat)
            },
        }
    }
}

/// A successful resolution returns a top-level record that the index holds.
pub proof fn lemma_resolve_ok(m: Map<u64, WorkOrder>, id: u64, fuel: nat)
    requires
        resolve_spec(m, id, fuel) is Ok,
    ensures
        resolve_spec(m, id, fuel)->Ok_0.parent is None,
        exists|w: u64| #[trigger] m.contains_key(w) && m[w] == resolve_spec(m, id, fuel)->Ok_0,
    decreases fuel,
{
    match m[id].parent {
        None => {
            assert(m.contains_key(id) && m[id] == resolve_spec(m, id, fuel)->Ok_0);
        },
        Some(p) => {
            lemma_resolve_ok(m, p, (fuel - 1) as nat);
        },
    }
}

/// An indexed collection of work orders, keyed by identifier, holding the
/// records in load order.
pub struct WorkOrderStore {
    orders: Vec<WorkOrder>,
}

impl View for WorkOrderStore {
    type V = Seq<WorkOrder>;

    closed spec fn view(&self) -> Seq<WorkOrder> {
        self.orders@
    }
}

impl WorkOrderStore {
    /// A store is well-formed when no two records share an identifier.
    pub open spec fn wf(&self) -> bool {
        ids_unique(self@)
    }

    /// Builds a store from fully loaded records, in load order; records
    /// whose identifiers collide are rejected.
    pub fn new(orders: Vec<WorkOrder>) -> (r: Option<WorkOrderStore>)
        ensures
            match r {
                Some(store) => store.wf() && store@ == orders@,
                None => !ids_unique(orders@),
            },
    {
        let n = orders.len();
        let mut i: usize = 0;
        while i < n
            invariant
                0 <= i <= n,
                n == orders@.len(),
                forall|p: int, q: int| 0 <= p < q < orders@.len() && p < i ==> orders@[p].id != orders@[q].id,
            decreases n - i,
        {
            let mut j: usize = i + 1;
            while j < n
                invariant
                    i < j <= n,
                    n == orders@.len(),
                    forall|q: int| i < q < j ==> orders@[i as int].id != orders@[q].id,
                decreases n - j,
            {
                if orders[i].id == orders[j].id {
                    return None;
                }
                j = j + 1;
            }
            i = i + 1;
        }
        Some(WorkOrderStore { orders })
    }

    /// The number of loaded records.
    pub fn len(&self) -> (r: usize)
        ensures
            r == self@.len(),
    {
        self.orders.len()
    }

    /// The record at a load-order position; with `len`, this enumerates the
    /// store exactly once per aggregation run.
    pub fn get(&self, i: usize) -> (r: &WorkOrder)
        requires
            i < self@.len(),
        ensures
            *r == self@[i as int],
    {
        &self.orders[i]
    }

    /// Looks a record up by identifier.
    pub fn find(&self, id: u64) -> (r: Option<&WorkOrder>)
        requires
            self.wf(),
        ensures
            match r {
                Some(wo) => id_map(self@).contains_key(id) && *wo == id_map(self@)[id],
                None => !id_map(self@).contains_key(id),
            },
    {
        proof {
            lemma_id_map(self@);
        }
        let n = self.orders.len();
        let mut i: usize = 0;
        while i < n
            invariant
                0 <= i <= n,
                n == self@.len(),
                self.wf(),
                forall|p: int| 0 <= p < i ==> self@[p].id != id,
                forall|id2: u64|
                    id_map(self@).contains_key(id2) <==> exists|k: int|
                        0 <= k < self@.len() && #[trigger] self@[k].id == id2,
                forall|k: int|
                    0 <= k < self@.len() ==> id_map(self@).contains_key(#[trigger] self@[k].id)
                        && id_map(self@)[self@[k].id] == self@[k],
            decreases n - i,
        {
            if self.orders[i].id == id {
                return Some(&self.orders[i]);
            }
            i = i + 1;
        }
        None
    }

    /// Follows the parent chain from `id` to the top-level ancestor.
    /// Traversal is bounded by the number of loaded records, so a corrupt,
    /// cyclic hierarchy is reported rather than looped on forever.
    pub fn resolve_top_level(&self, id: u64) -> (r: Result<&WorkOrder, HierarchyError>)
        requires
            self.wf(),
        ensures
            match r {
                Ok(wo) => resolve_spec(id_map(self@), id, self@.len() as nat) == Ok::<
                    WorkOrder,
                    HierarchyError,
                >(*wo),
                Err(e) => resolve_spec(id_map(self@), id, self@.len() as nat) == Err::<
                    WorkOrder,
                    HierarchyError,
                >(e),
            },
    {
        let ghost m = id_map(self@);
        let ghost n = self@.len() as nat;
        let mut cur: u64 = id;
        let mut fuel: usize = self.orders.len();
        loop
            invariant
                self.wf(),
                m == id_map(self@),
                n == self@.len() as nat,
                fuel <= self@.len(),
                resolve_spec(m, id, n) == resolve_spec(m, cur, fuel as nat),
            decreases fuel,
        {
            match self.find(cur) {
                None => {
                    return Err(HierarchyError::UnknownWorkOrder(cur));
                },
                Some(wo) => {
                    match wo.parent {
                        None => {
                            return Ok(wo);
                        },
                        Some(p) => {
                            if fuel == 0 {
                                return Err(HierarchyError::CyclicHierarchy(cur));
                            }
                            fuel = fuel - 1;
                            cur = p;
                        },
                    }
                },
            }
        }
    }
}

} // verus!
