use geob::index::{GeometryType, IndexError};
use geob::query::{Query, SelectError};
use geob::tree::{bbox, le_double, BBox, SpatialIndex};
use geob::Geob;

fn pt(x: f64, y: f64) -> Geob {
    Geob::new_point(4326, x.to_bits(), y.to_bits())
}

fn ids(index: &SpatialIndex, rows: &[usize]) -> Vec<u64> {
    let mut v: Vec<u64> = rows.iter().map(|i| index.row(*i).0).collect();
    v.sort();
    v
}

fn query() -> Query {
    Query { distance_eq: None, distance_lt: None, geometry_eq: None, geometry_match: None, id_eq: None }
}

fn boxed(min_x: f64, min_y: f64, max_x: f64, max_y: f64) -> BBox {
    BBox { min_x: min_x.to_bits(), min_y: min_y.to_bits(), max_x: max_x.to_bits(), max_y: max_y.to_bits() }
}

#[test]
fn double_order_on_bits() {
    assert!(le_double(1.0f64.to_bits(), 2.0f64.to_bits()));
    assert!(!le_double(2.0f64.to_bits(), 1.0f64.to_bits()));
    assert!(le_double((-3.0f64).to_bits(), (-1.0f64).to_bits()));
    assert!(le_double((-1.0f64).to_bits(), 0.5f64.to_bits()));
    assert!(le_double(0.0f64.to_bits(), (-0.0f64).to_bits()));
    assert!(!le_double(f64::NAN.to_bits(), 1.0f64.to_bits()));
    assert!(le_double(f64::NEG_INFINITY.to_bits(), f64::MIN.to_bits()));
}

#[test]
fn boxes_of_pairs() {
    let pairs = vec![(3.0f64.to_bits(), (-1.0f64).to_bits()), ((-2.0f64).to_bits(), 5.0f64.to_bits())];
    assert_eq!(bbox(&pairs), Some(boxed(-2.0, -1.0, 3.0, 5.0)));
    assert_eq!(bbox(&vec![]), None);
}

#[test]
fn distinct_inserts_count() {
    let mut index = SpatialIndex::new(GeometryType::Point, 4326);
    for i in 0..10u64 {
        index.insert(i, pt(i as f64, 0.0)).unwrap();
    }
    assert_eq!(index.len(), 10);
    index.insert(3, pt(50.0, 50.0)).unwrap();
    assert_eq!(index.len(), 10);
}

#[test]
fn envelope_search_is_exact() {
    let mut index = SpatialIndex::new(GeometryType::Any, 4326);
    index.insert(1, Geob::from_text("SRID=4326;LINESTRING(0 0, 2 2)").unwrap()).unwrap();
    index.insert(2, Geob::from_text("SRID=4326;POLYGON((5 5, 6 5, 6 6, 5 5))").unwrap()).unwrap();
    index.insert(3, pt(10.0, 10.0)).unwrap();
    assert_eq!(ids(&index, &index.locate_in_envelope(boxed(1.0, 1.0, 5.0, 5.0))), vec![1, 2]);
    assert_eq!(ids(&index, &index.locate_in_envelope(boxed(3.0, 3.0, 4.0, 4.0))), Vec::<u64>::new());
    assert_eq!(ids(&index, &index.iter()), vec![1, 2, 3]);
    assert_eq!(
        index.insert(4, Geob::from_text("SRID=4326;LINESTRING()").unwrap()).unwrap_err(),
        IndexError::Empty
    );
}

#[test]
fn point_index_refuses_other_kinds() {
    let mut index = SpatialIndex::new(GeometryType::Point, 4326);
    let line = Geob::from_text("SRID=4326;LINESTRING(0 0, 1 1)").unwrap();
    assert_eq!(index.insert(1, line).unwrap_err(), IndexError::NotAPoint);
    assert_eq!(index.len(), 0);
}

#[test]
fn distance_query_includes_nearby_points() {
    let mut index = SpatialIndex::new(GeometryType::Point, 4326);
    index.insert(1, pt(12.559285, 55.691249)).unwrap();
    index.insert(2, pt(12.5378308, 55.7036352)).unwrap();
    index.insert(3, pt(13.5, 55.7)).unwrap();
    let mut q = query();
    q.distance_lt = Some(3000.0f64.to_bits());
    q.geometry_eq = Some(pt(12.559285, 55.691249));
    let rows = index.select(&q).unwrap();
    assert_eq!(ids(&index, &rows), vec![1, 2]);
    let (_, g) = index.row(rows[0]);
    assert_eq!(g.srid(), 4326);
    q.id_eq = Some(2);
    assert_eq!(ids(&index, &index.select(&q).unwrap()), vec![2]);
    let shapes = SpatialIndex::new(GeometryType::Any, 4326);
    assert_eq!(shapes.select(&q).unwrap_err(), SelectError::NotPointIndex);
}

#[test]
fn deleted_rows_are_gone() {
    let mut index = SpatialIndex::new(GeometryType::Point, 4326);
    index.insert(1, pt(1.0, 1.0)).unwrap();
    index.insert(2, pt(1.0, 1.0)).unwrap();
    assert_eq!(index.remove(2), Some(2));
    assert_eq!(index.remove(2), None);
    assert_eq!(ids(&index, &index.select(&query()).unwrap()), vec![1]);
    index.insert(5, pt(2.0, 2.0)).unwrap();
    assert_eq!(ids(&index, &index.iter()), vec![1, 5]);
    let mut q = query();
    q.geometry_match = Some(pt(1.0, 1.0));
    assert_eq!(ids(&index, &index.select(&q).unwrap()), vec![1]);
}

#[test]
fn envelope_polygon_of_a_value() {
    let g = Geob::from_text("SRID=3857;LINESTRING(3 -1, -2 5)").unwrap();
    let e = g.envelope().unwrap();
    assert_eq!(e.to_text(), "SRID=3857;POLYGON((-2 -1, 3 -1, 3 5, -2 5, -2 -1))");
    assert!(Geob::from_text("SRID=1;LINESTRING()").unwrap().envelope().is_none());
}

#[test]
fn distance_search_directly() {
    let mut index = SpatialIndex::new(GeometryType::Point, 4326);
    index.insert(1, pt(0.0, 0.0)).unwrap();
    index.insert(2, pt(0.0, 0.01)).unwrap();
    index.insert(3, pt(0.0, 1.0)).unwrap();
    let near = index.locate_within_distance(0.0f64.to_bits(), 0.0f64.to_bits(), 2000.0f64.to_bits());
    assert_eq!(ids(&index, &near), vec![1, 2]);
    let ds = index.distances_to(0.0f64.to_bits(), 0.0f64.to_bits());
    assert_eq!(ds.len(), 3);
    assert_eq!(ids(&index, &index.within(&ds, 0.0f64.to_bits())), vec![1]);
}
