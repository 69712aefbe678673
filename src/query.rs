//! The cursor side of the index: reading the plan's bitmap back into the
//! order of the filter arguments, and choosing how to scan.
use vstd::prelude::*;
use crate::geob::Geob;
use crate::layout::HEADER_LEN;
use crate::plan::{
    Constraint, DISTANCE_EQ, DISTANCE_LT, GEOMETRY_EQ, GEOMETRY_IN, ID_EQ, flags_of, plan_error,
    used,
};

verus! {

/// The field of a query that a filter argument fills.
#[derive(Clone, Copy, Debug, PartialEq, Eq, Structural)]
pub enum QueryField {
    DistanceEq,
    DistanceLt,
    GeometryEq,
    GeometryMatch,
    IdEq,
}

/// The values that the filter arguments carried. Distances are the bit
/// patterns of doubles.
#[derive(Clone, Debug)]
pub struct Query {
    pub distance_eq: Option<u64>,
    pub distance_lt: Option<u64>,
    pub geometry_eq: Option<Geob>,
    pub geometry_match: Option<Geob>,
    pub id_eq: Option<u64>,
}

/// How the index is walked.
#[derive(Clone, Copy, Debug, PartialEq, Eq, Structural)]
pub enum Strategy {
    /// Points within the distance around the `geometry = G` point.
    WithinDistance,
    /// Entries whose box meets the box of the `geometry MATCH G` value.
    EnvelopeOfMatch,
    /// Entries whose box meets the box of the `geometry = G` value.
    EnvelopeOfEq,
    /// Every entry.
    Full,
}

/// The chosen scan and the row id that its results are filtered by, if any.
#[derive(Clone, Copy, Debug, PartialEq, Eq, Structural)]
pub struct Selection {
    pub strategy: Strategy,
    pub id_filter: Option<u64>,
}

/// Why a query cannot be run.
#[derive(Clone, Copy, Debug, PartialEq, Eq, Structural)]
pub enum SelectError {
    /// A distance search on an index that does not hold points.
    NotPointIndex,
    /// A distance search whose `geometry = G` is missing or not a point.
    NeedsPoint,
}

/// Bit `f` (a power of two) is set in `idx`.
pub open spec fn has_flag(idx: u32, f: u32) -> bool {
    (idx / f) % 2 == 1
}

/// The fields that the filter arguments fill, in argument order.
pub open spec fn fields_of(idx: u32) -> Seq<QueryField> {
    (if has_flag(idx, DISTANCE_EQ) {
        seq![QueryField::DistanceEq]
    } else {
        Seq::empty()
    }) + (if has_flag(idx, DISTANCE_LT) {
        seq![QueryField::DistanceLt]
    } else {
        Seq::empty()
    }) + (if has_flag(idx, GEOMETRY_EQ) {
        seq![QueryField::GeometryEq]
    } else {
        Seq::empty()
    }) + (if has_flag(idx, GEOMETRY_IN) {
        seq![QueryField::GeometryMatch]
    } else {
        Seq::empty()
    }) + (if has_flag(idx, ID_EQ) {
        seq![QueryField::IdEq]
    } else {
        Seq::empty()
    })
}

/// The value is a point.
pub open spec fn is_point(g: Geob) -> bool {
    g.wf() && g@[HEADER_LEN as int] == 1
}

/// The scan that a query calls for, by priority: distance, match, equality, all.
pub open spec fn select_spec(q: Query, point_index: bool) -> Result<Selection, SelectError> {
    if q.distance_lt is Some {
        if !point_index {
            Err(SelectError::NotPointIndex)
        } else if !(q.geometry_eq matches Some(g) && is_point(g)) {
            Err(SelectError::NeedsPoint)
        } else {
            Ok(Selection { strategy: Strategy::WithinDistance, id_filter: q.id_eq })
        }
    } else if q.geometry_match is Some {
        Ok(Selection { strategy: Strategy::EnvelopeOfMatch, id_filter: q.id_eq })
    } else if q.geometry_eq is Some {
        Ok(Selection { strategy: Strategy::EnvelopeOfEq, id_filter: q.id_eq })
    } else {
        Ok(Selection { strategy: Strategy::Full, id_filter: q.id_eq })
    }
}

/// The fields that the filter arguments fill, in the order the plan gave them.
pub fn argument_fields(idx_num: u32) -> (r: Vec<QueryField>)
    ensures
        r@ == fields_of(idx_num),
{
    let mut r: Vec<QueryField> = Vec::new();
    if (idx_num / DISTANCE_EQ) % 2 == 1 {
        r.push(QueryField::DistanceEq);
    }
    if (idx_num / DISTANCE_LT) % 2 == 1 {
        r.push(QueryField::DistanceLt);
    }
    if (idx_num / GEOMETRY_EQ) % 2 == 1 {
        r.push(QueryField::GeometryEq);
    }
    if (idx_num / GEOMETRY_IN) % 2 == 1 {
        r.push(QueryField::GeometryMatch);
    }
    if (idx_num / ID_EQ) % 2 == 1 {
        r.push(QueryField::IdEq);
    }
    assert(r@ =~= fields_of(idx_num));
    r
}

/// Chooses the scan for a query.
pub fn select_strategy(q: &Query, point_index: bool) -> (r: Result<Selection, SelectError>)
    requires
        q.geometry_eq matches Some(g) ==> g.wf(),
    ensures
        r == select_spec(*q, point_index),
{
    if q.distance_lt.is_some() {
        if !point_index {
            return Err(SelectError::NotPointIndex);
        }
        match &q.geometry_eq {
            Some(g) => {
                if g.as_bytes()[HEADER_LEN] == 1 {
                    Ok(Selection { strategy: Strategy::WithinDistance, id_filter: q.id_eq })
                } else {
                    Err(SelectError::NeedsPoint)
                }
            },
            None => Err(SelectError::NeedsPoint),
        }
    } else if q.geometry_match.is_some() {
        Ok(Selection { strategy: Strategy::EnvelopeOfMatch, id_filter: q.id_eq })
    } else if q.geometry_eq.is_some() {
        Ok(Selection { strategy: Strategy::EnvelopeOfEq, id_filter: q.id_eq })
    } else {
        Ok(Selection { strategy: Strategy::Full, id_filter: q.id_eq })
    }
}

/// `geometry MATCH G AND id = K`: the plan hands over the match value, then
/// the id, and the scan is the envelope search of the match value filtered
/// by that id.
pub proof fn lemma_match_with_id(cs: Seq<Constraint>, q: Query, point_index: bool)
    requires
        plan_error(cs) is None,
        !used(cs, 0),
        !used(cs, 1),
        !used(cs, 2),
        used(cs, 3),
        used(cs, 4),
        q.distance_eq is None,
        q.distance_lt is None,
        q.geometry_eq is None,
        q.geometry_match is Some,
        q.id_eq is Some,
    ensures
        fields_of(flags_of(cs)) == seq![QueryField::GeometryMatch, QueryField::IdEq],
        select_spec(q, point_index) == Ok::<Selection, SelectError>(
            Selection { strategy: Strategy::EnvelopeOfMatch, id_filter: q.id_eq },
        ),
{
    assert(flags_of(cs) == 192);
    assert(fields_of(192) =~= seq![QueryField::GeometryMatch, QueryField::IdEq]);
}

} // verus!
