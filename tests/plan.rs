use geob::plan::{
    best_index, Constraint, ConstraintOp, PlanError, DISTANCE_IDX, GEOMETRY_EQ, GEOMETRY_IN,
    GEO_IDX, ID_EQ, ID_IDX, DISTANCE_LT,
};
use geob::query::{argument_fields, select_strategy, Query, QueryField, SelectError, Selection, Strategy};
use geob::Geob;

fn c(column: i32, op: ConstraintOp, usable: bool) -> Constraint {
    Constraint { column, op, usable }
}

#[test]
fn distance_without_geometry_is_refused() {
    let cs = vec![c(DISTANCE_IDX, ConstraintOp::Lt, true)];
    assert_eq!(best_index(&cs, 10).unwrap_err(), PlanError::MissingGeometry);
    let cs = vec![c(DISTANCE_IDX, ConstraintOp::Eq, true), c(ID_IDX, ConstraintOp::Eq, true)];
    assert_eq!(best_index(&cs, 10).unwrap_err(), PlanError::MissingGeometry);
}

#[test]
fn argv_follows_column_order() {
    let cs = vec![
        c(ID_IDX, ConstraintOp::Eq, true),
        c(GEO_IDX, ConstraintOp::Eq, true),
        c(DISTANCE_IDX, ConstraintOp::Lt, true),
    ];
    let plan = best_index(&cs, 42).unwrap();
    assert_eq!(plan.argv, vec![3, 2, 1]);
    assert_eq!(plan.idx_num, DISTANCE_LT | GEOMETRY_EQ | ID_EQ);
    assert_eq!(plan.estimated_cost, 2200);
    assert_eq!(plan.estimated_rows, 42);
    assert_eq!(
        argument_fields(plan.idx_num),
        vec![QueryField::DistanceLt, QueryField::GeometryEq, QueryField::IdEq]
    );
}

#[test]
fn match_and_id_select_envelope_with_id_filter() {
    let cs = vec![c(GEO_IDX, ConstraintOp::Match, true), c(ID_IDX, ConstraintOp::Eq, true)];
    let plan = best_index(&cs, 0).unwrap();
    assert_eq!(plan.idx_num, GEOMETRY_IN | ID_EQ);
    assert_eq!(plan.argv, vec![1, 2]);
    assert_eq!(
        argument_fields(plan.idx_num),
        vec![QueryField::GeometryMatch, QueryField::IdEq]
    );
    let q = Query {
        distance_eq: None,
        distance_lt: None,
        geometry_eq: None,
        geometry_match: Some(Geob::new_point(4326, 0, 0)),
        id_eq: Some(7),
    };
    assert_eq!(
        select_strategy(&q, false).unwrap(),
        Selection { strategy: Strategy::EnvelopeOfMatch, id_filter: Some(7) }
    );
}

#[test]
fn unusable_and_unsupported_constraints() {
    let cs = vec![c(ID_IDX, ConstraintOp::Eq, false)];
    assert_eq!(best_index(&cs, 0).unwrap_err(), PlanError::Unusable);
    let cs = vec![c(ID_IDX, ConstraintOp::Eq, false), c(ID_IDX, ConstraintOp::Eq, true)];
    let plan = best_index(&cs, 0).unwrap();
    assert_eq!(plan.argv, vec![0, 1]);
    assert_eq!(plan.estimated_cost, 1200);
    let cs = vec![c(ID_IDX, ConstraintOp::Lt, true)];
    assert_eq!(best_index(&cs, 0).unwrap_err(), PlanError::Unsupported);
    let plan = best_index(&vec![], 5).unwrap();
    assert_eq!(plan.idx_num, 0);
    assert!(plan.argv.is_empty());
}

#[test]
fn strategy_priorities_and_errors() {
    let p = Geob::new_point(4326, 1.0f64.to_bits(), 2.0f64.to_bits());
    let line = Geob::from_text("SRID=4326;LINESTRING(0 0, 1 1)").unwrap();
    let mut q = Query {
        distance_eq: None,
        distance_lt: Some(3000.0f64.to_bits()),
        geometry_eq: Some(p.clone()),
        geometry_match: Some(line.clone()),
        id_eq: None,
    };
    assert_eq!(select_strategy(&q, true).unwrap().strategy, Strategy::WithinDistance);
    assert_eq!(select_strategy(&q, false).unwrap_err(), SelectError::NotPointIndex);
    q.geometry_eq = Some(line.clone());
    assert_eq!(select_strategy(&q, true).unwrap_err(), SelectError::NeedsPoint);
    q.distance_lt = None;
    assert_eq!(select_strategy(&q, true).unwrap().strategy, Strategy::EnvelopeOfMatch);
    q.geometry_match = None;
    assert_eq!(select_strategy(&q, true).unwrap().strategy, Strategy::EnvelopeOfEq);
    q.geometry_eq = None;
    assert_eq!(select_strategy(&q, true).unwrap().strategy, Strategy::Full);
}
