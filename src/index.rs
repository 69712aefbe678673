//! The spatial index table's own rules: its geometry types and schema, the
//! options it is created with, and what it stores for an inserted row.
use vstd::prelude::*;
use vstd::string::*;
use geo::Distance;
use byteorder::ByteOrder;
use crate::geob::{GeoType, Geob};
use crate::layout::body_of;


verus! {

/// The kind of geometry an index accepts; `Any` takes every kind.
#[derive(Clone, Copy, Debug, PartialEq, Eq, Structural, PartialOrd, Ord)]
pub enum GeometryType {
    Point,
    LineString,
    Polygon,
    MultiPoint,
    MultiLineString,
    MultiPolygon,
    Collection,
    Any,
}

pub open spec fn geometry_type_of(t: GeoType) -> GeometryType {
    match t {
        GeoType::Point => GeometryType::Point,
        GeoType::LineString => GeometryType::LineString,
        GeoType::Polygon => GeometryType::Polygon,
        GeoType::MultiPoint => GeometryType::MultiPoint,
        GeoType::MultiLineString => GeometryType::MultiLineString,
        GeoType::MultiPolygon => GeometryType::MultiPolygon,
        GeoType::Collection => GeometryType::Collection,
    }
}

/// `self` accepts `other`: `Any` on either side, a collection takes
/// anything, a multi-kind takes its single kind, and every kind itself.
pub open spec fn accepts(a: GeometryType, b: GeometryType) -> bool {
    a == GeometryType::Any || b == GeometryType::Any || a == GeometryType::Collection || (a
        == GeometryType::MultiPoint && b == GeometryType::Point) || (a
        == GeometryType::MultiLineString && b == GeometryType::LineString) || (a
        == GeometryType::MultiPolygon && b == GeometryType::Polygon) || a == b
}

impl From<GeoType> for GeometryType {
    fn from(value: GeoType) -> (r: GeometryType) {
        match value {
            GeoType::Point => GeometryType::Point,
            GeoType::LineString => GeometryType::LineString,
            GeoType::Polygon => GeometryType::Polygon,
            GeoType::MultiPoint => GeometryType::MultiPoint,
            GeoType::MultiLineString => GeometryType::MultiLineString,
            GeoType::MultiPolygon => GeometryType::MultiPolygon,
            GeoType::Collection => GeometryType::Collection,
        }
    }
}

impl vstd::std_specs::convert::FromSpecImpl<GeoType> for GeometryType {
    open spec fn obeys_from_spec() -> bool {
        true
    }

    open spec fn from_spec(v: GeoType) -> GeometryType {
        geometry_type_of(v)
    }
}

impl GeometryType {
    /// The table declaration: point indices have the hidden `distance` column.
    pub fn schema(&self) -> (r: &'static str)
        ensures
            *self == GeometryType::Point ==> r@
                == "CREATE TABLE x(id INTEGER, geometry HIDDEN, distance HIDDEN)"@,
            *self != GeometryType::Point ==> r@ == "CREATE TABLE x(id INTEGER, geometry HIDDEN)"@,
    {
        match self {
            GeometryType::Point => "CREATE TABLE x(id INTEGER, geometry HIDDEN, distance HIDDEN)",
            _ => "CREATE TABLE x(id INTEGER, geometry HIDDEN)",
        }
    }

    /// Whether an index of this type accepts a value of type `other`.
    pub fn is_valid(&self, other: GeometryType) -> (r: bool)
        ensures
            r == accepts(*self, other),
    {
        match (self, other) {
            (_, GeometryType::Any) | (GeometryType::Any, _) => true,
            (GeometryType::Collection, _) => true,
            (GeometryType::MultiPoint, GeometryType::Point)
            | (GeometryType::MultiLineString, GeometryType::LineString)
            | (GeometryType::MultiPolygon, GeometryType::Polygon) => true,
            (a, b) => *a == b,
        }
    }
}

/// Why the table could not be created.
#[derive(Clone, Copy, Debug, PartialEq, Eq, Structural)]
pub enum ConfigError {
    /// An option name that the table does not know; its position among the options.
    UnknownParameter(usize),
    /// A `type` value that names no geometry type.
    UnknownType(usize),
    /// A `srid` value that is not an unsigned 32-bit decimal.
    BadSrid(usize),
    /// An `index` value other than `true` or `false`.
    BadIndexFlag(usize),
    MissingSrid,
    MissingType,
    MissingTable,
    MissingColumn,
}

/// The options of a spatial index table.
#[derive(Clone, Debug)]
pub struct IndexOptions {
    pub table: String,
    pub column: String,
    pub srid: u32,
    pub ty: GeometryType,
    pub index: bool,
}

/// The options gathered so far.
pub ghost struct Gathered {
    pub table: Option<Seq<char>>,
    pub column: Option<Seq<char>>,
    pub srid: Option<u32>,
    pub ty: Option<GeometryType>,
    pub index: bool,
}

pub open spec fn type_named(v: Seq<char>) -> Option<GeometryType> {
    if v == "geometry"@ {
        Some(GeometryType::Any)
    } else if v == "point"@ {
        Some(GeometryType::Point)
    } else if v == "linestring"@ {
        Some(GeometryType::LineString)
    } else if v == "multilinestring"@ {
        Some(GeometryType::MultiLineString)
    } else if v == "multipoint"@ {
        Some(GeometryType::MultiPoint)
    } else if v == "polygon"@ {
        Some(GeometryType::Polygon)
    } else if v == "multipolygon"@ {
        Some(GeometryType::MultiPolygon)
    } else {
        None
    }
}

pub open spec fn digit_value(c: char) -> nat {
    (c as u32 - '0' as u32) as nat
}

/// The value of a run of decimal digits.
pub open spec fn decimal_value(s: Seq<char>) -> nat
    decreases s.len(),
{
    if s.len() == 0 {
        0
    } else {
        decimal_value(s.drop_last()) * 10 + digit_value(s.last())
    }
}

/// `s` is a non-empty run of decimal digits whose value fits in 32 bits.
pub open spec fn srid_text(s: Seq<char>) -> Option<u32> {
    if s.len() > 0 && (forall|i: int| 0 <= i < s.len() ==> '0' <= #[trigger] s[i] <= '9')
        && decimal_value(s) <= u32::MAX {
        Some(decimal_value(s) as u32)
    } else {
        None
    }
}

/// The options after the first `n` of `ps`, or the first refusal among them.
pub open spec fn gather(ps: Seq<(Seq<char>, Seq<char>)>, n: nat) -> Result<Gathered, ConfigError>
    decreases n,
{
    if n == 0 {
        Ok(Gathered { table: None, column: None, srid: None, ty: None, index: true })
    } else {
        match gather(ps, (n - 1) as nat) {
            Err(e) => Err(e),
            Ok(g) => {
                let (k, v) = ps[n - 1];
                let at = (n - 1) as usize;
                if k == "table"@ {
                    Ok(Gathered { table: Some(v), ..g })
                } else if k == "column"@ {
                    Ok(Gathered { column: Some(v), ..g })
                } else if k == "type"@ {
                    match type_named(v) {
                        Some(t) => Ok(Gathered { ty: Some(t), ..g }),
                        None => Err(ConfigError::UnknownType(at)),
                    }
                } else if k == "srid"@ {
                    match srid_text(v) {
                        Some(s) => Ok(Gathered { srid: Some(s), ..g }),
                        None => Err(ConfigError::BadSrid(at)),
                    }
                } else if k == "index"@ {
                    if v == "true"@ {
                        Ok(Gathered { index: true, ..g })
                    } else if v == "false"@ {
                        Ok(Gathered { index: false, ..g })
                    } else {
                        Err(ConfigError::BadIndexFlag(at))
                    }
                } else {
                    Err(ConfigError::UnknownParameter(at))
                }
            },
        }
    }
}

/// The refusal, if any, for a whole list of options.
pub open spec fn options_error(ps: Seq<(Seq<char>, Seq<char>)>) -> Option<ConfigError> {
    match gather(ps, ps.len()) {
        Err(e) => Some(e),
        Ok(g) => if g.srid is None {
            Some(ConfigError::MissingSrid)
        } else if g.ty is None {
            Some(ConfigError::MissingType)
        } else if g.table is None {
            Some(ConfigError::MissingTable)
        } else if g.column is None {
            Some(ConfigError::MissingColumn)
        } else {
            None
        },
    }
}

fn same_text(a: &str, b: &str) -> (r: bool)
    ensures
        r == (a@ == b@),
{
    let n = a.unicode_len();
    if n != b.unicode_len() {
        return false;
    }
    let mut i: usize = 0;
    while i < n
        invariant
            n == a@.len(),
            n == b@.len(),
            i <= n,
            forall|j: int| 0 <= j < i ==> a@[j] == b@[j],
        decreases n - i,
    {
        if a.get_char(i) != b.get_char(i) {
            return false;
        }
        i = i + 1;
    }
    assert(a@ =~= b@);
    true
}

fn parse_type(v: &str) -> (r: Option<GeometryType>)
    ensures
        r == type_named(v@),
{
    if same_text(v, "geometry") {
        Some(GeometryType::Any)
    } else if same_text(v, "point") {
        Some(GeometryType::Point)
    } else if same_text(v, "linestring") {
        Some(GeometryType::LineString)
    } else if same_text(v, "multilinestring") {
        Some(GeometryType::MultiLineString)
    } else if same_text(v, "multipoint") {
        Some(GeometryType::MultiPoint)
    } else if same_text(v, "polygon") {
        Some(GeometryType::Polygon)
    } else if same_text(v, "multipolygon") {
        Some(GeometryType::MultiPolygon)
    } else {
        None
    }
}

/// Reads a `srid` value.
pub fn parse_srid(v: &str) -> (r: Option<u32>)
    ensures
        r == srid_text(v@),
{
    let n = v.unicode_len();
    if n == 0 {
        return None;
    }
    let mut value: u64 = 0;
    let mut i: usize = 0;
    while i < n
        invariant
            n == v@.len(),
            0 < n,
            i <= n,
            forall|j: int| 0 <= j < i ==> '0' <= #[trigger] v@[j] <= '9',
            value == decimal_value(v@.subrange(0, i as int)),
            value <= u32::MAX,
        decreases n - i,
    {
        let c = v.get_char(i);
        if !('0' <= c && c <= '9') {
            return None;
        }
        let d = (c as u32 - '0' as u32) as u64;
        assert(v@.subrange(0, i + 1).drop_last() =~= v@.subrange(0, i as int));
        if value > (0xffff_ffffu64 - d) / 10 {
            proof {
                lemma_decimal_value_grows(v@, i + 1);
            }
            return None;
        }
        value = value * 10 + d;
        i = i + 1;
    }
    assert(v@.subrange(0, n as int) =~= v@);
    Some(value as u32)
}

proof fn lemma_decimal_value_grows(s: Seq<char>, k: int)
    requires
        0 < k <= s.len(),
        forall|j: int| 0 <= j < k ==> '0' <= #[trigger] s[j] <= '9',
    ensures
        decimal_value(s.subrange(0, k)) <= decimal_value(s),
    decreases s.len(),
{
    if k < s.len() {
        assert(s.drop_last().subrange(0, k) =~= s.subrange(0, k));
        lemma_decimal_value_grows(s.drop_last(), k);
        assert(decimal_value(s) == decimal_value(s.drop_last()) * 10 + digit_value(s.last()));
    } else {
        assert(s.subrange(0, k) =~= s);
    }
}

fn owned(s: &str) -> (r: String)
    ensures
        r@ == s@,
{
    let mut r = String::new();
    r.append(s);
    assert(r@ =~= s@);
    r
}

/// Reads the table's options, given as name and value pairs in order; a
/// later value of a name replaces an earlier one.
pub fn parse_options(params: &Vec<(String, String)>) -> (r: Result<IndexOptions, ConfigError>)
    ensures
        r matches Err(e) ==> options_error(params@.map_values(|p: (String, String)| (p.0@, p.1@)))
            == Some(e),
        r matches Ok(o) ==> {
            let ps = params@.map_values(|p: (String, String)| (p.0@, p.1@));
            &&& options_error(ps) is None
            &&& gather(ps, ps.len()) matches Ok(g) && g.table == Some(o.table@) && g.column
                == Some(o.column@) && g.srid == Some(o.srid) && g.ty == Some(o.ty) && g.index
                == o.index
        },
        options_error(params@.map_values(|p: (String, String)| (p.0@, p.1@))) is None ==> r is Ok,
{
    let ghost ps = params@.map_values(|p: (String, String)| (p.0@, p.1@));
    let mut table: Option<String> = None;
    let mut column: Option<String> = None;
    let mut srid: Option<u32> = None;
    let mut ty: Option<GeometryType> = None;
    let mut index = true;
    let mut i: usize = 0;
    while i < params.len()
        invariant
            i <= params@.len(),
            ps == params@.map_values(|p: (String, String)| (p.0@, p.1@)),
            gather(ps, i as nat) matches Ok(g) && g.table == (match table {
                Some(t) => Some(t@),
                None => None,
            }) && g.column == (match column {
                Some(t) => Some(t@),
                None => None,
            }) && g.srid == srid && g.ty == ty && g.index == index,
        decreases params@.len() - i,
    {
        let k = params[i].0.as_str();
        let v = params[i].1.as_str();
        if same_text(k, "table") {
            table = Some(owned(v));
        } else if same_text(k, "column") {
            column = Some(owned(v));
        } else if same_text(k, "type") {
            match parse_type(v) {
                Some(t) => {
                    ty = Some(t);
                },
                None => {
                    proof {
                        lemma_gather_err_sticks(ps, (i + 1) as nat, ps.len());
                    }
                    return Err(ConfigError::UnknownType(i));
                },
            }
        } else if same_text(k, "srid") {
            match parse_srid(v) {
                Some(s) => {
                    srid = Some(s);
                },
                None => {
                    proof {
                        lemma_gather_err_sticks(ps, (i + 1) as nat, ps.len());
                    }
                    return Err(ConfigError::BadSrid(i));
                },
            }
        } else if same_text(k, "index") {
            if same_text(v, "true") {
                index = true;
            } else if same_text(v, "false") {
                index = false;
            } else {
                proof {
                    lemma_gather_err_sticks(ps, (i + 1) as nat, ps.len());
                }
                return Err(ConfigError::BadIndexFlag(i));
            }
        } else {
            proof {
                lemma_gather_err_sticks(ps, (i + 1) as nat, ps.len());
            }
            return Err(ConfigError::UnknownParameter(i));
        }
        i = i + 1;
    }
    let srid = match srid {
        Some(s) => s,
        None => {
            return Err(ConfigError::MissingSrid);
        },
    };
    let ty = match ty {
        Some(t) => t,
        None => {
            return Err(ConfigError::MissingType);
        },
    };
    let table = match table {
        Some(t) => t,
        None => {
            return Err(ConfigError::MissingTable);
        },
    };
    let column = match column {
        Some(c) => c,
        None => {
            return Err(ConfigError::MissingColumn);
        },
    };
    Ok(IndexOptions { table, column, srid, ty, index })
}

proof fn lemma_gather_err_sticks(ps: Seq<(Seq<char>, Seq<char>)>, m: nat, n: nat)
    requires
        m <= n,
        gather(ps, m) is Err,
    ensures
        gather(ps, n) == gather(ps, m),
    decreases n - m,
{
    if m < n {
        lemma_gather_err_sticks(ps, m, (n - 1) as nat);
    }
}

/// Why a row was refused by an index.
#[derive(Clone, Copy, Debug, PartialEq, Eq, Structural)]
pub enum IndexError {
    /// A point index was handed a value that is not a point.
    NotAPoint,
    /// The value has no coordinates, hence no box.
    Empty,
}

/// Relies on geo's `Haversine.distance` between two `geo::Point`s (longitude
/// and latitude in degrees); byteorder's `LittleEndian` converts between bit
/// patterns and doubles. The result goes through the platform's sine and
/// cosine, so nothing is promised of its value.
#[verifier::external_body]
pub(crate) fn haversine(ax: u64, ay: u64, bx: u64, by: u64) -> (r: u64) {
    let ax = byteorder::LittleEndian::read_f64(&ax.to_le_bytes());
    let ay = byteorder::LittleEndian::read_f64(&ay.to_le_bytes());
    let bx = byteorder::LittleEndian::read_f64(&bx.to_le_bytes());
    let by = byteorder::LittleEndian::read_f64(&by.to_le_bytes());
    let d = geo::Haversine.distance(geo::Point::new(ax, ay), geo::Point::new(bx, by));
    let mut out = [0u8; 8];
    byteorder::LittleEndian::write_f64(&mut out, d);
    byteorder::LittleEndian::read_u64(&out)
}

/// Why a distance was refused.
#[derive(Clone, Copy, Debug, PartialEq, Eq, Structural)]
pub enum DistanceError {
    /// One of the two values is not a point.
    NotAPoint,
}

impl Geob {
    /// Great-circle distance in metres between two points, as the bit pattern
    /// of a double; any other pair is refused.
    pub fn distance(&self, other: &Geob) -> (r: Result<u64, DistanceError>)
        requires
            self.wf(),
            other.wf(),
        ensures
            r is Err <==> body_of(self@)[0] != 1 || body_of(other@)[0] != 1,
    {
        match (self.as_point(), other.as_point()) {
            (Some(a), Some(b)) => Ok(haversine(a.x(), a.y(), b.x(), b.y())),
            _ => Err(DistanceError::NotAPoint),
        }
    }
}

} // verus!
