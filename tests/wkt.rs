use geob::wkt_read::TextError;
use geob::Geob;

#[test]
fn point_text_to_blob() {
    let g = Geob::from_text("SRID=4326;POINT(12.5 55.7)").unwrap();
    let b = g.as_bytes();
    // endian, SRID, type byte and two doubles
    assert_eq!(b.len(), 22);
    assert_eq!(b[5], 1);
    let p = g.as_point().unwrap();
    assert_eq!(f64::from_bits(p.x()), 12.5);
    assert_eq!(f64::from_bits(p.y()), 55.7);
    assert_eq!(g.srid(), 4326);
}

#[test]
fn polygon_text_round_trip() {
    let text = "SRID=4326;POLYGON((0 0, 4 0, 4 4, 0 4, 0 0))";
    assert_eq!(Geob::from_text(text).unwrap().to_text(), text);
}

#[test]
fn every_kind_round_trips() {
    for text in [
        "SRID=0;POINT(-1.5 2e-3)",
        "SRID=7;LINESTRING(1 2, 3.25 4)",
        "SRID=7;MULTIPOINT(1 2, 3 4)",
        "SRID=7;MULTILINESTRING((1 2, 3 4), (5 6))",
        "SRID=7;MULTIPOLYGON(((0 0, 1 0, 0 0)), ((2 2, 3 3, 2 2), (9 9)))",
        "SRID=4294967295;GEOMETRYCOLLECTION(POINT(1 2), GEOMETRYCOLLECTION(LINESTRING(0 0, 1 1)))",
        "SRID=1;LINESTRING()",
    ] {
        let g = Geob::from_text(text).unwrap();
        let printed = g.to_text();
        let again = Geob::from_text(&printed).unwrap();
        assert_eq!(again.as_bytes(), g.as_bytes(), "{text}");
    }
    assert_eq!(
        Geob::from_text("SRID=0;POINT(-1.5 2e-3)").unwrap().to_text(),
        "SRID=0;POINT(-1.5 0.002)"
    );
}

#[test]
fn whitespace_is_optional_around_parens_and_commas() {
    let a = Geob::from_text("SRID=3;LINESTRING ( 1 2 ,3 4 ) ").unwrap();
    let b = Geob::from_text("SRID=3;LINESTRING(1 2, 3 4)").unwrap();
    assert_eq!(a.as_bytes(), b.as_bytes());
}

#[test]
fn malformed_text_is_refused() {
    assert_eq!(Geob::from_text("POINT(1 2)").unwrap_err(), TextError { position: 0 });
    assert!(Geob::from_text("SRID=1;POINT(12)").is_err());
    assert!(Geob::from_text("SRID=1;POINT(1 2").is_err());
    assert!(Geob::from_text("SRID=1;CIRCLE(1 2)").is_err());
    assert!(Geob::from_text("SRID=4294967296;POINT(1 2)").is_err());
    assert!(Geob::from_text("SRID=1;POINT(1 2) x").is_err());
    assert!(Geob::from_text("SRID=1;POINT(1e 2)").is_err());
}
