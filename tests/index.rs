use geob::index::{parse_options, parse_srid, ConfigError, DistanceError, GeometryType};
use geob::projection::ProjectError;
use geob::{GeoType, Geob};

fn opts(list: &[(&str, &str)]) -> Vec<(String, String)> {
    list.iter().map(|(k, v)| (k.to_string(), v.to_string())).collect()
}

#[test]
fn options_are_read() {
    let o = parse_options(&opts(&[
        ("table", "t"),
        ("column", "geom"),
        ("srid", "4326"),
        ("type", "point"),
        ("index", "false"),
    ]))
    .unwrap();
    assert_eq!(o.table, "t");
    assert_eq!(o.column, "geom");
    assert_eq!(o.srid, 4326);
    assert_eq!(o.ty, GeometryType::Point);
    assert!(!o.index);
}

#[test]
fn options_errors() {
    assert_eq!(
        parse_options(&opts(&[("colour", "red")])).unwrap_err(),
        ConfigError::UnknownParameter(0)
    );
    assert_eq!(
        parse_options(&opts(&[("table", "t"), ("type", "circle")])).unwrap_err(),
        ConfigError::UnknownType(1)
    );
    assert_eq!(
        parse_options(&opts(&[("srid", "-1")])).unwrap_err(),
        ConfigError::BadSrid(0)
    );
    assert_eq!(
        parse_options(&opts(&[("srid", "4294967296")])).unwrap_err(),
        ConfigError::BadSrid(0)
    );
    assert_eq!(
        parse_options(&opts(&[("index", "yes")])).unwrap_err(),
        ConfigError::BadIndexFlag(0)
    );
    assert_eq!(parse_options(&opts(&[])).unwrap_err(), ConfigError::MissingSrid);
    assert_eq!(
        parse_options(&opts(&[("srid", "1")])).unwrap_err(),
        ConfigError::MissingType
    );
    assert_eq!(
        parse_options(&opts(&[("srid", "1"), ("type", "geometry")])).unwrap_err(),
        ConfigError::MissingTable
    );
    assert_eq!(
        parse_options(&opts(&[("srid", "1"), ("type", "geometry"), ("table", "x")])).unwrap_err(),
        ConfigError::MissingColumn
    );
}

#[test]
fn srid_values() {
    assert_eq!(parse_srid("0"), Some(0));
    assert_eq!(parse_srid("4294967295"), Some(u32::MAX));
    assert_eq!(parse_srid(""), None);
    assert_eq!(parse_srid("12a"), None);
}

#[test]
fn geometry_type_rules() {
    assert!(GeometryType::Any.is_valid(GeometryType::Polygon));
    assert!(GeometryType::Collection.is_valid(GeometryType::Point));
    assert!(GeometryType::MultiPoint.is_valid(GeometryType::Point));
    assert!(!GeometryType::Point.is_valid(GeometryType::MultiPoint));
    assert!(!GeometryType::Polygon.is_valid(GeometryType::LineString));
    assert_eq!(GeometryType::from(GeoType::MultiPolygon), GeometryType::MultiPolygon);
    assert_eq!(
        GeometryType::Point.schema(),
        "CREATE TABLE x(id INTEGER, geometry HIDDEN, distance HIDDEN)"
    );
    assert_eq!(
        GeometryType::Polygon.schema(),
        "CREATE TABLE x(id INTEGER, geometry HIDDEN)"
    );
}

#[test]
fn haversine_scenario() {
    let a = Geob::from_text("SRID=3857;POINT(12.559285 55.691249)").unwrap();
    let b = Geob::from_text("SRID=3857;POINT(12.5378308 55.7036352)").unwrap();
    let d = f64::from_bits(a.distance(&b).unwrap());
    assert!((d - 1924.69).abs() < 1.0, "{d}");
    assert_eq!(f64::from_bits(a.distance(&a).unwrap()), 0.0);
    let line = Geob::from_text("SRID=3857;LINESTRING(0 0, 1 1)").unwrap();
    assert_eq!(a.distance(&line).unwrap_err(), DistanceError::NotAPoint);
}

#[test]
fn projection_to_same_srid_is_identity() {
    let g = Geob::from_text("SRID=4326;POLYGON((0 0, 4 0, 4 4, 0 0))").unwrap();
    let same = g.project_into(4326, &vec![]).unwrap();
    assert_eq!(same.as_bytes(), g.as_bytes());
}

#[test]
fn projection_rewrites_coordinates() {
    let g = Geob::from_text("SRID=4326;GEOMETRYCOLLECTION(POINT(1 2), LINESTRING(3 4, 5 6))").unwrap();
    let pairs = g.coords();
    assert_eq!(pairs.len(), 3);
    assert_eq!(f64::from_bits(pairs[2].0), 5.0);
    let moved: Vec<(u64, u64)> = pairs
        .iter()
        .map(|(x, y)| ((f64::from_bits(*x) * 2.0).to_bits(), (f64::from_bits(*y) + 1.0).to_bits()))
        .collect();
    let p = g.project_into(3857, &moved).unwrap();
    assert_eq!(p.srid(), 3857);
    assert_eq!(
        p.to_text(),
        "SRID=3857;GEOMETRYCOLLECTION(POINT(2 3), LINESTRING(6 5, 10 7))"
    );
    assert_eq!(
        g.project_into(3857, &vec![]).unwrap_err(),
        ProjectError::CountMismatch
    );
}

#[test]
fn projection_keeps_byte_order_and_layout() {
    let mut b = vec![0u8];
    b.extend_from_slice(&4326u32.to_be_bytes());
    b.push(2);
    b.extend_from_slice(&2u32.to_be_bytes());
    for v in [1.0f64, 2.0, 3.0, 4.0] {
        b.extend_from_slice(&v.to_be_bytes());
    }
    let g = Geob::from_bytes(&b).unwrap();
    let pairs = vec![(10.0f64.to_bits(), 20.0f64.to_bits()), (30.0f64.to_bits(), 40.0f64.to_bits())];
    let p = g.project_into(3857, &pairs).unwrap();
    assert_eq!(p.as_bytes().len(), b.len());
    assert_eq!(p.as_bytes()[0], 0);
    assert_eq!(&p.as_bytes()[5..10], &b[5..10]);
    assert_eq!(p.srid(), 3857);
    assert_eq!(p.coords(), pairs);
    assert_eq!(p.to_text(), "SRID=3857;LINESTRING(10 20, 30 40)");
}
