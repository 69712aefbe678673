//! Spatial reference identifiers and a few well-known reference systems.
use vstd::prelude::*;

verus! {

#[derive(Clone, Copy, Debug, PartialEq, Eq, Structural, PartialOrd, Ord, Hash)]
pub enum Unit {
    Meter,
    Unknown,
}

#[derive(Clone, Copy, Debug, PartialEq, Eq, Structural, PartialOrd, Ord, Hash)]
pub enum CRS {
    Geodetic,
    Projected,
}

#[derive(Clone, Copy, Debug, PartialEq, Eq, Structural, PartialOrd, Ord, Hash)]
pub enum CoordinateSystem {
    Spherical,
    Ellipsoidal,
    Cart2d,
}

#[derive(Clone, Copy, Debug, PartialEq, Eq, Structural, PartialOrd, Ord, Hash)]
pub enum Datum {
    WGS84,
    ETRS89,
    Unknown,
}

/// A reference system of the EPSG registry and what it measures in.
#[derive(Clone, Copy, Debug, PartialEq, Eq, Structural)]
pub struct EPSG {
    pub id: u32,
    pub unit: Unit,
    pub datum: Datum,
    pub crs: CRS,
    pub cs: CoordinateSystem,
}

impl EPSG {
    /// EPSG:3857.
    pub fn web_mercator() -> (r: EPSG)
        ensures
            r.id == 3857,
    {
        EPSG {
            id: 3857,
            unit: Unit::Meter,
            datum: Datum::WGS84,
            crs: CRS::Projected,
            cs: CoordinateSystem::Cart2d,
        }
    }

    /// EPSG:4326.
    pub fn wgs84() -> (r: EPSG)
        ensures
            r.id == 4326,
    {
        EPSG {
            id: 4326,
            unit: Unit::Meter,
            datum: Datum::WGS84,
            crs: CRS::Projected,
            cs: CoordinateSystem::Ellipsoidal,
        }
    }

    /// The registry's name of this system, where it is one of the known ones.
    pub fn name(&self) -> (r: &'static str)
        ensures
            self.id == 3857 ==> r@ == "Web Mercator"@,
            self.id == 4326 ==> r@ == "WGS84"@,
    {
        if self.id == 3857 {
            "Web Mercator"
        } else if self.id == 4326 {
            "WGS84"
        } else {
            ""
        }
    }
}

/// An opaque 32-bit identifier of a coordinate reference system.
#[derive(Clone, Copy, Debug, PartialEq, Eq, Structural, PartialOrd, Ord, Hash)]
pub struct SRID {
    pub id: u32,
}

impl SRID {
    pub open spec fn id(&self) -> u32 {
        self.id
    }

    pub fn new(id: u32) -> (r: SRID)
        ensures
            r.id() == id,
    {
        SRID { id }
    }

    pub fn value(&self) -> (r: u32)
        ensures
            r == self.id(),
    {
        self.id
    }

    pub fn web_mercator() -> (r: SRID)
        ensures
            r.id() == 3857,
    {
        SRID { id: 3857 }
    }

    pub fn wgs84() -> (r: SRID)
        ensures
            r.id() == 4326,
    {
        SRID { id: 4326 }
    }
}

impl From<u32> for SRID {
    fn from(value: u32) -> (r: SRID) {
        SRID { id: value }
    }
}

impl vstd::std_specs::convert::FromSpecImpl<u32> for SRID {
    open spec fn obeys_from_spec() -> bool {
        true
    }

    open spec fn from_spec(v: u32) -> SRID {
        SRID { id: v }
    }
}

impl From<SRID> for u32 {
    fn from(value: SRID) -> (r: u32) {
        value.id
    }
}

impl vstd::std_specs::convert::FromSpecImpl<SRID> for u32 {
    open spec fn obeys_from_spec() -> bool {
        true
    }

    open spec fn from_spec(v: SRID) -> u32 {
        v.id
    }
}

} // verus!
