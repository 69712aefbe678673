use geob::layout::{validate, FormatError};
use geob::views::GeometryRef;
use geob::{GeoType, Geob, SRID};

fn point_blob_be(srid: u32, x: f64, y: f64) -> Vec<u8> {
    let mut b = vec![0u8];
    b.extend_from_slice(&srid.to_be_bytes());
    b.push(1);
    b.extend_from_slice(&x.to_be_bytes());
    b.extend_from_slice(&y.to_be_bytes());
    b
}

#[test]
fn new_point_layout() {
    let g = Geob::new_point(4326, 12.5f64.to_bits(), 55.7f64.to_bits());
    let b = g.as_bytes();
    assert_eq!(b.len(), 22);
    assert_eq!(b[0], 1);
    assert_eq!(&b[1..5], &4326u32.to_le_bytes());
    assert_eq!(b[5], 1);
    assert_eq!(&b[6..14], &12.5f64.to_le_bytes());
    assert_eq!(g.srid(), 4326);
    assert_eq!(g.kind(), GeoType::Point);
    assert_eq!(g.len(), 22);
}

#[test]
fn from_bytes_keeps_the_blob() {
    let b = point_blob_be(3857, 1.5, -2.25);
    let g = Geob::from_bytes(&b).unwrap();
    assert_eq!(g.as_bytes(), &b[..]);
    assert_eq!(g.srid(), 3857);
    let p = g.as_point().unwrap();
    assert_eq!(f64::from_bits(p.x()), 1.5);
    assert_eq!(f64::from_bits(p.y()), -2.25);
}

#[test]
fn from_bytes_errors() {
    assert_eq!(Geob::from_bytes(&[]).unwrap_err(), FormatError::Header(0));
    assert_eq!(Geob::from_bytes(&[1, 0, 0]).unwrap_err(), FormatError::Header(3));
    assert_eq!(Geob::from_bytes(&[2, 0, 0, 0, 0, 1]).unwrap_err(), FormatError::Header(0));
    let mut b = point_blob_be(1, 0.0, 0.0);
    b.push(0);
    assert_eq!(Geob::from_bytes(&b).unwrap_err(), FormatError::Body(22));
    b.truncate(20);
    assert_eq!(Geob::from_bytes(&b).unwrap_err(), FormatError::Body(5));
    let mut bad_type = point_blob_be(1, 0.0, 0.0);
    bad_type[5] = 8;
    assert_eq!(Geob::from_bytes(&bad_type).unwrap_err(), FormatError::Body(5));
    assert_eq!(
        geob::views::GeometryRef::validate(&[2, 0, 0, 0, 0, 7], geob::scalar::Endian::Big).unwrap_err(),
        FormatError::Body(5)
    );
}

#[test]
fn validate_arbitrary_bytes_never_panics() {
    let mut seed: u32 = 12345;
    for len in 0..200usize {
        let mut b = Vec::new();
        for _ in 0..len {
            seed = seed.wrapping_mul(1103515245).wrapping_add(12345);
            b.push((seed >> 16) as u8 % 9);
        }
        let _ = validate(&b);
    }
    assert!(validate(&point_blob_be(1, 0.0, 0.0)));
    assert!(!validate(&[1, 0, 0, 0, 0, 2, 255, 255, 255, 255]));
}

#[test]
fn set_srid_changes_only_the_srid() {
    let mut g = Geob::from_bytes(&point_blob_be(4326, 3.0, 4.0)).unwrap();
    let before = g.as_bytes().to_vec();
    g.set_srid(SRID::from(3857));
    assert_eq!(g.srid(), 3857);
    let after = g.as_bytes();
    assert_eq!(before[0], after[0]);
    assert_eq!(&before[5..], &after[5..]);
    assert_eq!(&after[1..5], &3857u32.to_be_bytes());
}

#[test]
fn line_string_view_counts_and_coords() {
    let g = Geob::from_text("SRID=1;LINESTRING(1 2, 3 4, 5 6)").unwrap();
    let l = g.as_line_string().unwrap();
    assert_eq!(l.len(), 3);
    let c = l.get(2).unwrap();
    assert_eq!(f64::from_bits(c.x()), 5.0);
    assert_eq!(f64::from_bits(c.y()), 6.0);
    assert!(l.get(3).is_none());
}

#[test]
fn polygon_view_rings() {
    let g = Geob::from_text("SRID=1;POLYGON((0 0, 4 0, 4 4, 0 0), (1 1, 2 1, 1 1))").unwrap();
    let p = g.as_polygon().unwrap();
    assert_eq!(p.len(), 2);
    assert_eq!(p.exterior().unwrap().len(), 4);
    assert_eq!(p.interior(0).unwrap().len(), 3);
    assert!(p.interior(1).is_none());
}

#[test]
fn multipolygon_scenario() {
    let g = Geob::from_text(
        "SRID=4326;MULTIPOLYGON(((0 0, 1 0, 1 1, 0 0)), ((5 5, 6 5, 5 5)))",
    )
    .unwrap();
    assert!(validate(g.as_bytes()));
    match g.geometry() {
        GeometryRef::MultiPolygon(m) => {
            assert_eq!(m.len(), 2);
            let second = m.get(1).unwrap();
            assert_eq!(second.get(0).unwrap().len(), 3);
            assert!(m.get(2).is_none());
        }
        _ => panic!("expected a multipolygon"),
    }
}

#[test]
fn collection_view_members() {
    let g = Geob::from_text("SRID=1;GEOMETRYCOLLECTION(POINT(1 2), LINESTRING(0 0, 1 1))").unwrap();
    assert_eq!(g.kind(), GeoType::Collection);
    match g.geometry() {
        GeometryRef::Collection(c) => {
            assert_eq!(c.len(), 2);
            assert!(matches!(c.get(0), Some(GeometryRef::Point(_))));
            match c.get(1) {
                Some(GeometryRef::LineString(l)) => assert_eq!(l.len(), 2),
                _ => panic!("expected a line string"),
            }
            assert!(c.get(2).is_none());
        }
        _ => panic!("expected a collection"),
    }
}

#[test]
fn geo_type_codes() {
    assert_eq!(GeoType::from_u8(0), None);
    assert_eq!(GeoType::from_u8(6), Some(GeoType::MultiPolygon));
    assert_eq!(GeoType::from_u8(8), None);
    assert_eq!(GeoType::Collection.code(), 7);
}

#[test]
fn equality_ignores_byte_order() {
    let be = Geob::from_bytes(&point_blob_be(4326, 12.5, 55.7)).unwrap();
    let le = Geob::from_text("SRID=4326;POINT(12.5 55.7)").unwrap();
    assert_ne!(be.as_bytes(), le.as_bytes());
    assert!(be == le);
    assert!(be.same_as(&le));
    let other_srid = Geob::from_text("SRID=3857;POINT(12.5 55.7)").unwrap();
    assert!(be != other_srid);
    let other_kind = Geob::from_text("SRID=4326;MULTIPOINT(12.5 55.7)").unwrap();
    assert!(le != other_kind);
}

#[test]
fn equality_compares_doubles() {
    let zero = Geob::new_point(1, 0.0f64.to_bits(), 1.0f64.to_bits());
    let minus_zero = Geob::new_point(1, (-0.0f64).to_bits(), 1.0f64.to_bits());
    assert!(zero == minus_zero);
    let nan = Geob::new_point(1, f64::NAN.to_bits(), 1.0f64.to_bits());
    assert!(nan != nan.clone());
    assert_eq!(
        Geob::from_text("SRID=1;POLYGON((0 0, 1 0, 0 0))").unwrap().shape(),
        vec![3, 1, 3]
    );
}

#[test]
fn parts_rebuild_a_value() {
    let g = Geob::from_text(
        "SRID=9;GEOMETRYCOLLECTION(POINT(1 2), MULTIPOLYGON(((0 0, 1 0, 0 0)), ((2 2, 3 3, 2 2))))",
    )
    .unwrap();
    let rebuilt = Geob::from_parts(9, &g.shape(), &g.coords()).unwrap();
    assert_eq!(rebuilt.as_bytes(), g.as_bytes());
    let be = Geob::from_bytes(&point_blob_be(5, 1.0, 2.0)).unwrap();
    assert!(Geob::from_parts(5, &be.shape(), &be.coords()).unwrap() == be);
    assert_eq!(
        Geob::from_parts(1, &vec![2, 3], &vec![(0, 0)]).unwrap_err(),
        geob::assemble::AssembleError::Mismatch
    );
}
