//! The owning geometry value.
use vstd::prelude::*;
use crate::layout::{
    FormatError, HEADER_LEN, blob_endian, body_of, check, check_spec,
    well_formed,
};
use crate::scalar::{
    Endian, endian_byte, lemma_u32_round_trip, push_u32, push_u64, read_u32, u32_at, u32_bytes,
    u64_bytes, write_u32_at,
};
use crate::srid::SRID;

verus! {

/// The seven kinds of geometry, by their type byte.
#[derive(Clone, Copy, Debug, PartialEq, Eq, Structural, PartialOrd, Ord, Hash)]
pub enum GeoType {
    Point,
    LineString,
    Polygon,
    MultiPoint,
    MultiLineString,
    MultiPolygon,
    Collection,
}

/// The kind that a type byte names.
pub open spec fn geo_type_of(i: u8) -> Option<GeoType> {
    if i == 1 {
        Some(GeoType::Point)
    } else if i == 2 {
        Some(GeoType::LineString)
    } else if i == 3 {
        Some(GeoType::Polygon)
    } else if i == 4 {
        Some(GeoType::MultiPoint)
    } else if i == 5 {
        Some(GeoType::MultiLineString)
    } else if i == 6 {
        Some(GeoType::MultiPolygon)
    } else if i == 7 {
        Some(GeoType::Collection)
    } else {
        None
    }
}

/// The type byte of a kind.
pub open spec fn type_code(t: GeoType) -> u8 {
    match t {
        GeoType::Point => 1,
        GeoType::LineString => 2,
        GeoType::Polygon => 3,
        GeoType::MultiPoint => 4,
        GeoType::MultiLineString => 5,
        GeoType::MultiPolygon => 6,
        GeoType::Collection => 7,
    }
}

impl GeoType {
    /// The kind that a type byte names; `None` outside `1..=7`.
    pub fn from_u8(i: u8) -> (r: Option<GeoType>)
        ensures
            r == geo_type_of(i),
    {
        if i == 1 {
            Some(GeoType::Point)
        } else if i == 2 {
            Some(GeoType::LineString)
        } else if i == 3 {
            Some(GeoType::Polygon)
        } else if i == 4 {
            Some(GeoType::MultiPoint)
        } else if i == 5 {
            Some(GeoType::MultiLineString)
        } else if i == 6 {
            Some(GeoType::MultiPolygon)
        } else if i == 7 {
            Some(GeoType::Collection)
        } else {
            None
        }
    }

    /// The WKT keyword of this kind.
    pub fn name(&self) -> (r: &'static str)
        ensures
            *self == GeoType::Point ==> r@ == "POINT"@,
            *self == GeoType::LineString ==> r@ == "LINESTRING"@,
            *self == GeoType::Polygon ==> r@ == "POLYGON"@,
            *self == GeoType::MultiPoint ==> r@ == "MULTIPOINT"@,
            *self == GeoType::MultiLineString ==> r@ == "MULTILINESTRING"@,
            *self == GeoType::MultiPolygon ==> r@ == "MULTIPOLYGON"@,
            *self == GeoType::Collection ==> r@ == "GEOMETRYCOLLECTION"@,
    {
        match self {
            GeoType::Point => "POINT",
            GeoType::LineString => "LINESTRING",
            GeoType::Polygon => "POLYGON",
            GeoType::MultiPoint => "MULTIPOINT",
            GeoType::MultiLineString => "MULTILINESTRING",
            GeoType::MultiPolygon => "MULTIPOLYGON",
            GeoType::Collection => "GEOMETRYCOLLECTION",
        }
    }

    /// The type byte of this kind.
    pub fn code(&self) -> (r: u8)
        ensures
            r == type_code(*self),
            geo_type_of(r) == Some(*self),
    {
        match self {
            GeoType::Point => 1,
            GeoType::LineString => 2,
            GeoType::Polygon => 3,
            GeoType::MultiPoint => 4,
            GeoType::MultiLineString => 5,
            GeoType::MultiPolygon => 6,
            GeoType::Collection => 7,
        }
    }
}

/// The blob of a point in little-endian order.
pub open spec fn point_blob(srid: u32, x: u64, y: u64) -> Seq<u8> {
    seq![1u8] + u32_bytes(srid, Endian::Little) + seq![1u8] + u64_bytes(x, Endian::Little)
        + u64_bytes(y, Endian::Little)
}

/// The SRID field of a blob.
pub open spec fn srid_of(b: Seq<u8>) -> nat {
    u32_at(b, blob_endian(b), 1)
}

/// A blob with its SRID field replaced by `s`, every other byte kept.
pub open spec fn with_srid(b: Seq<u8>, s: u32) -> Seq<u8> {
    b.subrange(0, 1) + u32_bytes(s, blob_endian(b)) + b.subrange(5, b.len() as int)
}

/// An owned, validated blob.
#[derive(Clone, Debug)]
pub struct Geob {
    bytes: Vec<u8>,
}

impl View for Geob {
    type V = Seq<u8>;

    closed spec fn view(&self) -> Seq<u8> {
        self.bytes@
    }
}

impl Geob {
    /// The blob holds exactly one well-formed geometry.
    pub open spec fn wf(&self) -> bool {
        well_formed(self@)
    }

    /// Adopts bytes that are known to be well formed.
    pub fn new(bytes: Vec<u8>) -> (r: Geob)
        requires
            well_formed(bytes@),
        ensures
            r@ == bytes@,
            r.wf(),
    {
        Geob { bytes }
    }

    /// Validates `bytes` and adopts a copy of them.
    pub fn from_bytes(bytes: &[u8]) -> (r: Result<Geob, FormatError>)
        ensures
            r is Ok <==> well_formed(bytes@),
            r matches Ok(g) ==> g@ == bytes@ && g.wf(),
            r matches Err(e) ==> check_spec(bytes@) == Err::<(), FormatError>(e),
    {
        match check(bytes) {
            Ok(()) => Ok(Geob { bytes: vstd::slice::slice_to_vec(bytes) }),
            Err(e) => Err(e),
        }
    }

    /// A point in little-endian order; `x` and `y` are the bit patterns of
    /// the two doubles.
    pub fn new_point(srid: u32, x: u64, y: u64) -> (r: Geob)
        ensures
            r@ == point_blob(srid, x, y),
            r.wf(),
    {
        let mut out: Vec<u8> = Vec::new();
        out.push(1);
        push_u32(&mut out, srid, Endian::Little);
        out.push(1);
        push_u64(&mut out, x, Endian::Little);
        push_u64(&mut out, y, Endian::Little);
        proof {
            assert(out@ =~= point_blob(srid, x, y));
            assert(body_of(out@).len() == 17);
            assert(body_of(out@)[0] == 1);
        }
        Geob { bytes: out }
    }

    /// The whole blob.
    pub fn as_bytes(&self) -> (r: &[u8])
        ensures
            r@ == self@,
    {
        self.bytes.as_slice()
    }

    /// The whole blob.
    pub fn slice(&self) -> (r: &[u8])
        ensures
            r@ == self@,
    {
        self.bytes.as_slice()
    }

    /// The byte order that the blob announces.
    pub fn endian(&self) -> (r: Endian)
        requires
            self.wf(),
        ensures
            r == blob_endian(self@),
            endian_byte(r) == self@[0],
    {
        if self.bytes[0] == 0 {
            Endian::Big
        } else {
            Endian::Little
        }
    }

    /// The SRID field.
    pub fn srid(&self) -> (r: u32)
        requires
            self.wf(),
        ensures
            r as nat == srid_of(self@),
    {
        let e = self.endian();
        read_u32(self.bytes.as_slice(), 1, e)
    }

    /// Replaces the SRID field in place; every other byte is kept.
    pub fn set_srid(&mut self, srid: SRID)
        requires
            old(self).wf(),
        ensures
            final(self).wf(),
            final(self)@ == with_srid(old(self)@, srid.id()),
    {
        let e = self.endian();
        let ghost before = self.bytes@;
        write_u32_at(&mut self.bytes, 1, srid.id, e);
        proof {
            assert(self.bytes@ =~= with_srid(before, srid.id()));
            assert(body_of(self.bytes@) =~= body_of(before));
        }
    }

    /// The kind named by the type byte.
    pub fn kind(&self) -> (r: GeoType)
        requires
            self.wf(),
        ensures
            geo_type_of(self@[HEADER_LEN as int]) == Some(r),
    {
        proof {
            assert(body_of(self@)[0] == self@[5]);
        }
        match GeoType::from_u8(self.bytes[HEADER_LEN]) {
            Some(t) => t,
            None => GeoType::Point,
        }
    }

    /// A second value holding the same bytes.
    pub fn duplicate(&self) -> (r: Geob)
        ensures
            r@ == self@,
    {
        Geob { bytes: self.bytes.clone() }
    }

    /// Length of the blob in bytes.
    pub fn len(&self) -> (r: usize)
        ensures
            r == self@.len(),
    {
        self.bytes.len()
    }
}

/// After `set_srid(s)` the SRID reads back as `s`, and every byte but the
/// four of the SRID field is unchanged.
pub proof fn lemma_set_srid(b: Seq<u8>, s: u32)
    requires
        well_formed(b),
    ensures
        well_formed(with_srid(b, s)),
        srid_of(with_srid(b, s)) == s as nat,
        with_srid(b, s).len() == b.len(),
        forall|i: int| 0 <= i < b.len() && !(1 <= i < 5) ==> #[trigger] with_srid(b, s)[i] == b[i],
{
    let n = with_srid(b, s);
    lemma_u32_round_trip(b.subrange(0, 1), s, blob_endian(b), b.subrange(5, b.len() as int));
    assert(body_of(n) =~= body_of(b));
    assert(n[0] == b[0]);
}

} // verus!
