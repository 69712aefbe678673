//! Query planning for the spatial index table: which constraints the index
//! consumes, in which order their values arrive, and what a scan costs.
use vstd::prelude::*;
use crate::layout::as_int;

verus! {

/// Column number of `id`.
pub const ID_IDX: i32 = 0;

/// Column number of the hidden `geometry` column.
pub const GEO_IDX: i32 = 1;

/// Column number of the hidden `distance` column (point indices only).
pub const DISTANCE_IDX: i32 = 2;

/// Bit of `idx_num`: `distance = D`.
pub const DISTANCE_EQ: u32 = 1;

/// Bit of `idx_num`: `distance < D`.
pub const DISTANCE_LT: u32 = 2;

/// Bit of `idx_num`: `geometry = G`.
pub const GEOMETRY_EQ: u32 = 32;

/// Bit of `idx_num`: `geometry MATCH G`.
pub const GEOMETRY_IN: u32 = 64;

/// Bit of `idx_num`: `id = K`.
pub const ID_EQ: u32 = 128;

/// The operator of a constraint that the host offers.
#[derive(Clone, Copy, Debug, PartialEq, Eq, Structural)]
pub enum ConstraintOp {
    Eq,
    Lt,
    Match,
    Other,
}

/// One constraint that the host offers to the planner.
#[derive(Clone, Copy, Debug, PartialEq, Eq, Structural)]
pub struct Constraint {
    pub column: i32,
    pub op: ConstraintOp,
    pub usable: bool,
}

/// Why no plan could be made.
#[derive(Clone, Copy, Debug, PartialEq, Eq, Structural)]
pub enum PlanError {
    /// A constraint names a column and operator that the index does not know.
    Unsupported,
    /// A `distance` constraint came without a usable `geometry = G`.
    MissingGeometry,
    /// A recognised constraint is unusable and no usable one of its kind was taken.
    Unusable,
}

/// The plan handed back to the host.
#[derive(Clone, Debug)]
pub struct QueryPlan {
    /// Bitmap of the consumed kinds of constraint.
    pub idx_num: u32,
    /// For each offered constraint, its 1-based position among the filter
    /// arguments, or 0 where it is not consumed.
    pub argv: Vec<u32>,
    /// Estimated cost of the scan.
    pub estimated_cost: u64,
    /// Estimated number of rows: the size of the index.
    pub estimated_rows: u64,
}

/// The slot of a recognised constraint, in column order: distance-eq,
/// distance-lt, geometry-eq, geometry-match, id-eq.
pub open spec fn slot_of(c: Constraint) -> Option<int> {
    if c.column == DISTANCE_IDX && c.op == ConstraintOp::Eq {
        Some(0)
    } else if c.column == DISTANCE_IDX && c.op == ConstraintOp::Lt {
        Some(1)
    } else if c.column == GEO_IDX && c.op == ConstraintOp::Eq {
        Some(2)
    } else if c.column == GEO_IDX && c.op == ConstraintOp::Match {
        Some(3)
    } else if c.column == ID_IDX && c.op == ConstraintOp::Eq {
        Some(4)
    } else {
        None
    }
}

/// The bit of `idx_num` that stands for a slot.
pub open spec fn slot_flag(k: int) -> u32 {
    if k == 0 {
        DISTANCE_EQ
    } else if k == 1 {
        DISTANCE_LT
    } else if k == 2 {
        GEOMETRY_EQ
    } else if k == 3 {
        GEOMETRY_IN
    } else {
        ID_EQ
    }
}

/// Every offered constraint is one that the index recognises.
pub open spec fn all_supported(cs: Seq<Constraint>) -> bool {
    forall|i: int| 0 <= i < cs.len() ==> (#[trigger] slot_of(cs[i])) is Some
}

/// The last usable constraint among the first `n` that falls in slot `k`.
pub open spec fn pick_in(cs: Seq<Constraint>, k: int, n: nat) -> Option<int>
    decreases n,
{
    if n == 0 {
        None
    } else if cs[n - 1].usable && slot_of(cs[n - 1]) == Some(k) {
        Some(n - 1)
    } else {
        pick_in(cs, k, (n - 1) as nat)
    }
}

/// The usable constraint that slot `k` takes, if any.
pub open spec fn pick(cs: Seq<Constraint>, k: int) -> Option<int> {
    pick_in(cs, k, cs.len())
}

/// Slot `k` is filled by a usable constraint.
pub open spec fn used(cs: Seq<Constraint>, k: int) -> bool {
    pick(cs, k) is Some
}

/// Some unusable constraint among the first `n` falls in slot `k`.
pub open spec fn unusable_in(cs: Seq<Constraint>, k: int, n: nat) -> bool
    decreases n,
{
    if n == 0 {
        false
    } else {
        (!cs[n - 1].usable && slot_of(cs[n - 1]) == Some(k)) || unusable_in(
            cs,
            k,
            (n - 1) as nat,
        )
    }
}

/// A slot is asked for only by unusable constraints.
pub open spec fn unusable_unmet(cs: Seq<Constraint>) -> bool {
    exists|k: int| 0 <= k < 5 && unusable_in(cs, k, cs.len()) && !used(cs, k)
}

/// A distance constraint is taken without a `geometry = G` beside it.
pub open spec fn lacks_geometry(cs: Seq<Constraint>) -> bool {
    (used(cs, 0) || used(cs, 1)) && !used(cs, 2)
}

/// The bitmap of the filled slots.
pub open spec fn flags_of(cs: Seq<Constraint>) -> u32 {
    ((if used(cs, 0) { DISTANCE_EQ } else { 0 }) + (if used(cs, 1) {
        DISTANCE_LT
    } else {
        0
    }) + (if used(cs, 2) { GEOMETRY_EQ } else { 0 }) + (if used(cs, 3) {
        GEOMETRY_IN
    } else {
        0
    }) + (if used(cs, 4) { ID_EQ } else { 0 })) as u32
}

/// Number of filled slots before slot `k`.
pub open spec fn filled_before(cs: Seq<Constraint>, k: int) -> nat
    decreases k,
{
    if k <= 0 {
        0
    } else {
        filled_before(cs, k - 1) + if used(cs, k - 1) {
            1nat
        } else {
            0nat
        }
    }
}

/// The argument position of constraint `i`: 1-based in slot order, or 0.
pub open spec fn argv_of(cs: Seq<Constraint>, i: int) -> u32 {
    match slot_of(cs[i]) {
        Some(k) => if pick(cs, k) == Some(i) {
            (filled_before(cs, k) + 1) as u32
        } else {
            0
        },
        None => 0,
    }
}

/// Base cost of one offered constraint.
pub open spec fn cost_of(c: Constraint) -> nat {
    if c.column == DISTANCE_IDX {
        1000
    } else {
        600
    }
}

/// Total base cost of the first `n` constraints.
pub open spec fn cost_in(cs: Seq<Constraint>, n: nat) -> nat
    decreases n,
{
    if n == 0 {
        0
    } else {
        cost_in(cs, (n - 1) as nat) + cost_of(cs[n - 1])
    }
}

/// What planning gives: the error, if any, that comes first.
pub open spec fn plan_error(cs: Seq<Constraint>) -> Option<PlanError> {
    if !all_supported(cs) {
        Some(PlanError::Unsupported)
    } else if lacks_geometry(cs) {
        Some(PlanError::MissingGeometry)
    } else if unusable_unmet(cs) {
        Some(PlanError::Unusable)
    } else {
        None
    }
}

fn slot(c: &Constraint) -> (r: Option<usize>)
    ensures
        as_int(r) == slot_of(*c),
{
    if c.column == DISTANCE_IDX && c.op == ConstraintOp::Eq {
        Some(0)
    } else if c.column == DISTANCE_IDX && c.op == ConstraintOp::Lt {
        Some(1)
    } else if c.column == GEO_IDX && c.op == ConstraintOp::Eq {
        Some(2)
    } else if c.column == GEO_IDX && c.op == ConstraintOp::Match {
        Some(3)
    } else if c.column == ID_IDX && c.op == ConstraintOp::Eq {
        Some(4)
    } else {
        None
    }
}

fn flag(k: usize) -> (r: u32)
    ensures
        r == slot_flag(k as int),
{
    if k == 0 {
        DISTANCE_EQ
    } else if k == 1 {
        DISTANCE_LT
    } else if k == 2 {
        GEOMETRY_EQ
    } else if k == 3 {
        GEOMETRY_IN
    } else {
        ID_EQ
    }
}

/// Chooses which constraints the index consumes and in which order their
/// values are handed to the filter.
pub fn best_index(cs: &Vec<Constraint>, rows: u64) -> (r: Result<QueryPlan, PlanError>)
    requires
        cs@.len() < 0x10000000,
    ensures
        r matches Err(e) ==> plan_error(cs@) == Some(e),
        r matches Ok(p) ==> {
            &&& plan_error(cs@) is None
            &&& p.idx_num == flags_of(cs@)
            &&& p.argv@.len() == cs@.len()
            &&& forall|i: int| 0 <= i < cs@.len() ==> p.argv@[i] == #[trigger] argv_of(cs@, i)
            &&& p.estimated_cost == cost_in(cs@, cs@.len())
            &&& p.estimated_rows == rows
        },
        plan_error(cs@) is None ==> r is Ok,
{
    let mut picked: Vec<Option<usize>> = vec![None, None, None, None, None];
    let mut unusable: Vec<bool> = vec![false, false, false, false, false];
    let mut cost: u64 = 0;
    let mut i: usize = 0;
    while i < cs.len()
        invariant
            i <= cs@.len(),
            cs@.len() < 0x10000000,
            picked@.len() == 5,
            unusable@.len() == 5,
            forall|k: int| 0 <= k < 5 ==> as_int(#[trigger] picked@[k]) == pick_in(cs@, k, i as nat),
            forall|k: int| 0 <= k < 5 ==> #[trigger] unusable@[k] == unusable_in(cs@, k, i as nat),
            forall|j: int| 0 <= j < i ==> (#[trigger] slot_of(cs@[j])) is Some,
            cost == cost_in(cs@, i as nat),
            cost <= 1000 * i,
        decreases cs@.len() - i,
    {
        let c = &cs[i];
        let k = match slot(c) {
            Some(k) => k,
            None => {
                return Err(PlanError::Unsupported);
            },
        };
        if c.usable {
            picked.set(k, Some(i));
        } else {
            unusable.set(k, true);
        }
        if c.column == DISTANCE_IDX {
            cost = cost + 1000;
        } else {
            cost = cost + 600;
        }
        i = i + 1;
    }
    assert(all_supported(cs@));
    let mut idx_num: u32 = 0;
    let mut argv: Vec<u32> = Vec::new();
    let mut j: usize = 0;
    while j < cs.len()
        invariant
            j <= cs@.len(),
            argv@.len() == j,
            forall|t: int| 0 <= t < j ==> argv@[t] == 0,
        decreases cs@.len() - j,
    {
        argv.push(0);
        j = j + 1;
    }
    if (picked[0].is_some() || picked[1].is_some()) && picked[2].is_none() {
        return Err(PlanError::MissingGeometry);
    }
    let mut n_arg: u32 = 0;
    let mut k: usize = 0;
    while k < 5
        invariant
            k <= 5,
            picked@.len() == 5,
            forall|q: int| 0 <= q < 5 ==> as_int(#[trigger] picked@[q]) == pick(cs@, q),
            n_arg == filled_before(cs@, k as int),
            n_arg <= k,
            argv@.len() == cs@.len(),
            idx_num == (if k > 0 && used(cs@, 0) { DISTANCE_EQ } else { 0 }) + (if k > 1 && used(
                cs@,
                1,
            ) {
                DISTANCE_LT
            } else {
                0
            }) + (if k > 2 && used(cs@, 2) { GEOMETRY_EQ } else { 0 }) + (if k > 3 && used(
                cs@,
                3,
            ) {
                GEOMETRY_IN
            } else {
                0
            }) + (if k > 4 && used(cs@, 4) { ID_EQ } else { 0 }),
            forall|t: int|
                0 <= t < cs@.len() ==> #[trigger] argv@[t] == if slot_of(cs@[t]) matches Some(
                    q,
                ) && q < k {
                    argv_of(cs@, t)
                } else {
                    0
                },
        decreases 5 - k,
    {
        match picked[k] {
            Some(at) => {
                n_arg = n_arg + 1;
                idx_num = idx_num + flag(k);
                proof {
                    lemma_pick_in_slot(cs@, k as int, cs@.len());
                }
                argv.set(at, n_arg);
            },
            None => {},
        }
        k = k + 1;
    }
    let mut q: usize = 0;
    while q < 5
        invariant
            q <= 5,
            unusable@.len() == 5,
            picked@.len() == 5,
            forall|t: int| 0 <= t < 5 ==> as_int(#[trigger] picked@[t]) == pick(cs@, t),
            forall|t: int| 0 <= t < 5 ==> #[trigger] unusable@[t] == unusable_in(cs@, t, cs@.len()),
            forall|t: int| 0 <= t < q ==> !(unusable_in(cs@, t, cs@.len()) && !used(cs@, t)),
            all_supported(cs@),
            !lacks_geometry(cs@),
        decreases 5 - q,
    {
        if unusable[q] && picked[q].is_none() {
            assert(unusable_in(cs@, q as int, cs@.len()) && !used(cs@, q as int));
            return Err(PlanError::Unusable);
        }
        q = q + 1;
    }
    assert(!unusable_unmet(cs@));
    Ok(QueryPlan { idx_num, argv, estimated_cost: cost, estimated_rows: rows })
}

/// A `distance` constraint without a usable `geometry = G` is refused.
pub proof fn lemma_distance_needs_geometry(cs: Seq<Constraint>)
    requires
        used(cs, 0) || used(cs, 1),
        !used(cs, 2),
    ensures
        plan_error(cs) is Some,
{
}

proof fn lemma_filled_before_mono(cs: Seq<Constraint>, k1: int, k2: int)
    requires
        0 <= k1 < k2,
        used(cs, k1),
    ensures
        filled_before(cs, k1) + 1 <= filled_before(cs, k2),
    decreases k2,
{
    if k2 - 1 > k1 {
        lemma_filled_before_mono(cs, k1, k2 - 1);
    }
}

/// Argument positions follow column order: of two consumed constraints, the
/// one in the earlier slot gets the smaller position, and positions start at 1.
pub proof fn lemma_argv_column_order(cs: Seq<Constraint>, i: int, j: int)
    requires
        0 <= i < cs.len(),
        0 <= j < cs.len(),
        argv_of(cs, i) != 0,
        argv_of(cs, j) != 0,
        slot_of(cs[i])->0 < slot_of(cs[j])->0,
    ensures
        1 <= argv_of(cs, i) < argv_of(cs, j),
{
    let ki = slot_of(cs[i])->0;
    let kj = slot_of(cs[j])->0;
    lemma_filled_before_bound(cs, kj);
    lemma_filled_before_mono(cs, ki, kj);
}

proof fn lemma_filled_before_bound(cs: Seq<Constraint>, k: int)
    requires
        0 <= k,
    ensures
        filled_before(cs, k) <= k,
    decreases k,
{
    if k > 0 {
        lemma_filled_before_bound(cs, k - 1);
    }
}

proof fn lemma_pick_in_slot(cs: Seq<Constraint>, k: int, n: nat)
    requires
        n <= cs.len(),
    ensures
        pick_in(cs, k, n) matches Some(i) ==> 0 <= i < n && cs[i].usable && slot_of(cs[i]) == Some(
            k,
        ),
    decreases n,
{
    if n > 0 {
        lemma_pick_in_slot(cs, k, (n - 1) as nat);
    }
}

} // verus!
