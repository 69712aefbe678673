//! Zero-copy views over a blob. A view borrows the body (the bytes after the
//! header) and remembers where its element starts; lengths and elements are
//! read on demand. Coordinates are handed out as the bit patterns of the
//! stored doubles.
use vstd::prelude::*;
use crate::layout::{
    FormatError, HEADER_LEN, blob_endian, body_of, check, check_spec, coords_end,
    coords_end_exec, geometry_end, geometry_end_exec, members_from, polygons_from, rings_end,
    rings_end_exec, rings_from, well_formed,
};
use crate::scalar::{Endian, read_u32, read_u64, u32_at, u64_at};
use crate::geob::Geob;

verus! {

/// Start of the `i`-th coordinate sequence of a run that starts at `p`.
pub open spec fn seq_at(g: Seq<u8>, e: Endian, p: int, i: nat) -> int
    decreases i,
{
    if i == 0 {
        p
    } else {
        match coords_end(g, e, p) {
            Some(q) => seq_at(g, e, q, (i - 1) as nat),
            None => p,
        }
    }
}

/// Start of the `i`-th polygon body of a run that starts at `p`.
pub open spec fn polygon_at(g: Seq<u8>, e: Endian, p: int, i: nat) -> int
    decreases i,
{
    if i == 0 {
        p
    } else {
        match rings_end(g, e, p) {
            Some(q) => polygon_at(g, e, q, (i - 1) as nat),
            None => p,
        }
    }
}

/// Start of the `i`-th tagged geometry of a run that starts at `p`.
pub open spec fn member_at(g: Seq<u8>, e: Endian, p: int, i: nat) -> int
    decreases i,
{
    if i == 0 {
        p
    } else {
        match geometry_end(g, e, p) {
            Some(q) => member_at(g, e, q, (i - 1) as nat),
            None => p,
        }
    }
}

proof fn lemma_seq_at(g: Seq<u8>, e: Endian, p: int, n: nat, i: nat)
    requires
        rings_from(g, e, p, n) is Some,
        i <= n,
    ensures
        rings_from(g, e, seq_at(g, e, p, i), (n - i) as nat) == rings_from(g, e, p, n),
    decreases i,
{
    if i > 0 {
        let q = coords_end(g, e, p)->0;
        lemma_seq_at(g, e, q, (n - 1) as nat, (i - 1) as nat);
    }
}

proof fn lemma_polygon_at(g: Seq<u8>, e: Endian, p: int, n: nat, i: nat)
    requires
        polygons_from(g, e, p, n) is Some,
        i <= n,
    ensures
        polygons_from(g, e, polygon_at(g, e, p, i), (n - i) as nat) == polygons_from(g, e, p, n),
    decreases i,
{
    if i > 0 {
        let q = rings_end(g, e, p)->0;
        lemma_polygon_at(g, e, q, (n - 1) as nat, (i - 1) as nat);
    }
}

proof fn lemma_member_at(g: Seq<u8>, e: Endian, p: int, n: nat, i: nat)
    requires
        members_from(g, e, p, n) is Some,
        i <= n,
    ensures
        members_from(g, e, member_at(g, e, p, i), (n - i) as nat) == members_from(g, e, p, n),
    decreases i,
{
    if i > 0 {
        let q = geometry_end(g, e, p)->0;
        lemma_member_at(g, e, q, (n - 1) as nat, (i - 1) as nat);
    }
}

/// A coordinate pair.
#[derive(Clone, Copy, Debug)]
pub struct CoordRef<'a> {
    pub data: &'a [u8],
    pub pos: usize,
    pub endian: Endian,
}

impl<'a> CoordRef<'a> {
    pub open spec fn wf(&self) -> bool {
        self.pos + 16 <= self.data@.len()
    }

    /// Bit pattern of the stored `x`.
    pub fn x(&self) -> (r: u64)
        requires
            self.wf(),
        ensures
            r as nat == u64_at(self.data@, self.endian, self.pos as int),
    {
        read_u64(self.data, self.pos, self.endian)
    }

    /// Bit pattern of the stored `y`.
    pub fn y(&self) -> (r: u64)
        requires
            self.wf(),
        ensures
            r as nat == u64_at(self.data@, self.endian, self.pos + 8),
    {
        let len = self.data.len();
        read_u64(self.data, self.pos + 8, self.endian)
    }
}

/// A count followed by that many coordinate pairs.
#[derive(Clone, Copy, Debug)]
pub struct CoordSeqRef<'a> {
    pub data: &'a [u8],
    pub pos: usize,
    pub endian: Endian,
}

impl<'a> CoordSeqRef<'a> {
    pub open spec fn wf(&self) -> bool {
        coords_end(self.data@, self.endian, self.pos as int) is Some
    }

    pub open spec fn count(&self) -> nat {
        u32_at(self.data@, self.endian, self.pos as int)
    }

    /// The declared count.
    pub fn len(&self) -> (r: usize)
        requires
            self.wf(),
        ensures
            r == self.count(),
    {
        read_u32(self.data, self.pos, self.endian) as usize
    }

    /// The `idx`-th pair, where `idx < len()`.
    pub fn get(&self, idx: usize) -> (r: Option<CoordRef<'a>>)
        requires
            self.wf(),
        ensures
            r is Some <==> idx < self.count(),
            r matches Some(c) ==> c.wf() && c.data == self.data && c.endian == self.endian
                && c.pos == self.pos + 4 + 16 * idx,
    {
        let n = self.len();
        if idx >= n {
            return None;
        }
        let len = self.data.len();
        Some(CoordRef { data: self.data, pos: self.pos + 4 + 16 * idx, endian: self.endian })
    }
}

/// A count followed by that many coordinate sequences.
#[derive(Clone, Copy, Debug)]
pub struct MultiCoordSeqRef<'a> {
    pub data: &'a [u8],
    pub pos: usize,
    pub endian: Endian,
}

impl<'a> MultiCoordSeqRef<'a> {
    pub open spec fn wf(&self) -> bool {
        rings_end(self.data@, self.endian, self.pos as int) is Some
    }

    pub open spec fn count(&self) -> nat {
        u32_at(self.data@, self.endian, self.pos as int)
    }

    /// The declared count.
    pub fn len(&self) -> (r: usize)
        requires
            self.wf(),
        ensures
            r == self.count(),
    {
        read_u32(self.data, self.pos, self.endian) as usize
    }

    /// The `idx`-th sequence, found by walking the ones before it.
    pub fn get(&self, idx: usize) -> (r: Option<CoordSeqRef<'a>>)
        requires
            self.wf(),
        ensures
            r is Some <==> idx < self.count(),
            r matches Some(s) ==> s.wf() && s.data == self.data && s.endian == self.endian
                && s.pos == seq_at(self.data@, self.endian, self.pos + 4, idx as nat),
    {
        let n = self.len();
        if idx >= n {
            return None;
        }
        let len = self.data.len();
        let mut p = self.pos + 4;
        let mut j: usize = 0;
        proof {
            lemma_seq_at(self.data@, self.endian, self.pos + 4, n as nat, idx as nat);
        }
        while j < idx
            invariant
                j <= idx < n,
                n == self.count(),
                rings_from(self.data@, self.endian, self.pos + 4, n as nat) is Some,
                seq_at(self.data@, self.endian, p as int, (idx - j) as nat) == seq_at(
                    self.data@,
                    self.endian,
                    self.pos + 4,
                    idx as nat,
                ),
                rings_from(self.data@, self.endian, p as int, (n - j) as nat) == rings_from(
                    self.data@,
                    self.endian,
                    self.pos + 4,
                    n as nat,
                ),
            decreases idx - j,
        {
            match coords_end_exec(self.data, self.endian, p) {
                Some(q) => {
                    p = q;
                },
                None => {
                    return None;
                },
            }
            j = j + 1;
        }
        Some(CoordSeqRef { data: self.data, pos: p, endian: self.endian })
    }
}

/// A count followed by that many polygon bodies.
#[derive(Clone, Copy, Debug)]
pub struct CoordSegSegSegRef<'a> {
    pub data: &'a [u8],
    pub pos: usize,
    pub endian: Endian,
}

impl<'a> CoordSegSegSegRef<'a> {
    pub open spec fn wf(&self) -> bool {
        self.pos + 4 <= self.data@.len() && polygons_from(
            self.data@,
            self.endian,
            self.pos + 4,
            self.count(),
        ) is Some
    }

    pub open spec fn count(&self) -> nat {
        u32_at(self.data@, self.endian, self.pos as int)
    }

    /// The declared count.
    pub fn len(&self) -> (r: usize)
        requires
            self.wf(),
        ensures
            r == self.count(),
    {
        read_u32(self.data, self.pos, self.endian) as usize
    }

    /// The `idx`-th polygon body, found by walking the ones before it.
    pub fn get(&self, idx: usize) -> (r: Option<MultiCoordSeqRef<'a>>)
        requires
            self.wf(),
        ensures
            r is Some <==> idx < self.count(),
            r matches Some(s) ==> s.wf() && s.data == self.data && s.endian == self.endian
                && s.pos == polygon_at(self.data@, self.endian, self.pos + 4, idx as nat),
    {
        let n = self.len();
        if idx >= n {
            return None;
        }
        let len = self.data.len();
        let mut p = self.pos + 4;
        let mut j: usize = 0;
        proof {
            lemma_polygon_at(self.data@, self.endian, self.pos + 4, n as nat, idx as nat);
        }
        while j < idx
            invariant
                j <= idx < n,
                n == self.count(),
                polygons_from(self.data@, self.endian, self.pos + 4, n as nat) is Some,
                polygon_at(self.data@, self.endian, p as int, (idx - j) as nat) == polygon_at(
                    self.data@,
                    self.endian,
                    self.pos + 4,
                    idx as nat,
                ),
                polygons_from(self.data@, self.endian, p as int, (n - j) as nat) == polygons_from(
                    self.data@,
                    self.endian,
                    self.pos + 4,
                    n as nat,
                ),
            decreases idx - j,
        {
            match rings_end_exec(self.data, self.endian, p) {
                Some(q) => {
                    p = q;
                },
                None => {
                    return None;
                },
            }
            j = j + 1;
        }
        Some(MultiCoordSeqRef { data: self.data, pos: p, endian: self.endian })
    }
}

/// A collection: a count followed by that many tagged geometries.
#[derive(Clone, Copy, Debug)]
pub struct CollectionRef<'a> {
    pub data: &'a [u8],
    pub pos: usize,
    pub endian: Endian,
}

impl<'a> CollectionRef<'a> {
    pub open spec fn wf(&self) -> bool {
        self.pos + 4 <= self.data@.len() && members_from(
            self.data@,
            self.endian,
            self.pos + 4,
            self.count(),
        ) is Some
    }

    pub open spec fn count(&self) -> nat {
        u32_at(self.data@, self.endian, self.pos as int)
    }

    /// The declared count.
    pub fn len(&self) -> (r: usize)
        requires
            self.wf(),
        ensures
            r == self.count(),
    {
        read_u32(self.data, self.pos, self.endian) as usize
    }

    /// The `idx`-th member, found by walking the ones before it.
    pub fn get(&self, idx: usize) -> (r: Option<GeometryRef<'a>>)
        requires
            self.wf(),
        ensures
            r is Some <==> idx < self.count(),
            r matches Some(g) ==> g.wf() && g.start() == member_at(
                self.data@,
                self.endian,
                self.pos + 4,
                idx as nat,
            ),
    {
        let n = self.len();
        if idx >= n {
            return None;
        }
        let len = self.data.len();
        let mut p = self.pos + 4;
        let mut j: usize = 0;
        proof {
            lemma_member_at(self.data@, self.endian, self.pos + 4, n as nat, idx as nat);
        }
        while j < idx
            invariant
                j <= idx < n,
                n == self.count(),
                members_from(self.data@, self.endian, self.pos + 4, n as nat) is Some,
                member_at(self.data@, self.endian, p as int, (idx - j) as nat) == member_at(
                    self.data@,
                    self.endian,
                    self.pos + 4,
                    idx as nat,
                ),
                members_from(self.data@, self.endian, p as int, (n - j) as nat) == members_from(
                    self.data@,
                    self.endian,
                    self.pos + 4,
                    n as nat,
                ),
            decreases idx - j,
        {
            match geometry_end_exec(self.data, self.endian, p) {
                Some(q) => {
                    p = q;
                },
                None => {
                    return None;
                },
            }
            j = j + 1;
        }
        Some(geometry_at(self.data, self.endian, p))
    }
}

/// A point.
#[derive(Clone, Copy, Debug)]
pub struct PointRef<'a>(pub CoordRef<'a>);

impl<'a> PointRef<'a> {
    pub fn coord(&self) -> (r: CoordRef<'a>)
        ensures
            r == self.0,
    {
        self.0
    }

    /// Bit pattern of `x`.
    pub fn x(&self) -> (r: u64)
        requires
            self.0.wf(),
        ensures
            r as nat == u64_at(self.0.data@, self.0.endian, self.0.pos as int),
    {
        self.0.x()
    }

    /// Bit pattern of `y`.
    pub fn y(&self) -> (r: u64)
        requires
            self.0.wf(),
        ensures
            r as nat == u64_at(self.0.data@, self.0.endian, self.0.pos + 8),
    {
        self.0.y()
    }
}

/// A line string: one coordinate sequence.
#[derive(Clone, Copy, Debug)]
pub struct LineStringRef<'a>(pub CoordSeqRef<'a>);

impl<'a> LineStringRef<'a> {
    pub fn len(&self) -> (r: usize)
        requires
            self.0.wf(),
        ensures
            r == self.0.count(),
    {
        self.0.len()
    }

    pub fn get(&self, idx: usize) -> (r: Option<CoordRef<'a>>)
        requires
            self.0.wf(),
        ensures
            r is Some <==> idx < self.0.count(),
            r matches Some(c) ==> c.wf() && c.pos == self.0.pos + 4 + 16 * idx,
    {
        self.0.get(idx)
    }
}

/// A multipoint: one coordinate sequence, no tag per point.
#[derive(Clone, Copy, Debug)]
pub struct MultiPointRef<'a>(pub CoordSeqRef<'a>);

impl<'a> MultiPointRef<'a> {
    pub fn len(&self) -> (r: usize)
        requires
            self.0.wf(),
        ensures
            r == self.0.count(),
    {
        self.0.len()
    }

    pub fn get(&self, idx: usize) -> (r: Option<CoordRef<'a>>)
        requires
            self.0.wf(),
        ensures
            r is Some <==> idx < self.0.count(),
            r matches Some(c) ==> c.wf() && c.pos == self.0.pos + 4 + 16 * idx,
    {
        self.0.get(idx)
    }
}

/// A polygon: ring 0 is the exterior, the others are holes.
#[derive(Clone, Copy, Debug)]
pub struct PolygonRef<'a>(pub MultiCoordSeqRef<'a>);

impl<'a> PolygonRef<'a> {
    pub fn len(&self) -> (r: usize)
        requires
            self.0.wf(),
        ensures
            r == self.0.count(),
    {
        self.0.len()
    }

    pub fn get(&self, idx: usize) -> (r: Option<CoordSeqRef<'a>>)
        requires
            self.0.wf(),
        ensures
            r is Some <==> idx < self.0.count(),
            r matches Some(s) ==> s.wf() && s.pos == seq_at(
                self.0.data@,
                self.0.endian,
                self.0.pos + 4,
                idx as nat,
            ),
    {
        self.0.get(idx)
    }

    /// Ring 0, where there is one.
    pub fn exterior(&self) -> (r: Option<CoordSeqRef<'a>>)
        requires
            self.0.wf(),
        ensures
            r is Some <==> 0 < self.0.count(),
            r matches Some(s) ==> s.wf() && s.pos == self.0.pos + 4,
    {
        self.0.get(0)
    }

    /// Hole `idx`, that is ring `idx + 1`.
    pub fn interior(&self, idx: usize) -> (r: Option<CoordSeqRef<'a>>)
        requires
            self.0.wf(),
        ensures
            r is Some <==> idx + 1 < self.0.count(),
            r matches Some(s) ==> s.wf() && s.pos == seq_at(
                self.0.data@,
                self.0.endian,
                self.0.pos + 4,
                (idx + 1) as nat,
            ),
    {
        if idx == usize::MAX {
            return None;
        }
        self.0.get(idx + 1)
    }
}

/// A multilinestring: the same body as a polygon.
#[derive(Clone, Copy, Debug)]
pub struct MultiLineStringRef<'a>(pub MultiCoordSeqRef<'a>);

impl<'a> MultiLineStringRef<'a> {
    pub fn len(&self) -> (r: usize)
        requires
            self.0.wf(),
        ensures
            r == self.0.count(),
    {
        self.0.len()
    }

    pub fn get(&self, idx: usize) -> (r: Option<CoordSeqRef<'a>>)
        requires
            self.0.wf(),
        ensures
            r is Some <==> idx < self.0.count(),
            r matches Some(s) ==> s.wf() && s.pos == seq_at(
                self.0.data@,
                self.0.endian,
                self.0.pos + 4,
                idx as nat,
            ),
    {
        self.0.get(idx)
    }
}

/// A multipolygon: a count followed by polygon bodies, no tag per polygon.
#[derive(Clone, Copy, Debug)]
pub struct MultiPolygonRef<'a>(pub CoordSegSegSegRef<'a>);

impl<'a> MultiPolygonRef<'a> {
    pub fn len(&self) -> (r: usize)
        requires
            self.0.wf(),
        ensures
            r == self.0.count(),
    {
        self.0.len()
    }

    pub fn get(&self, idx: usize) -> (r: Option<MultiCoordSeqRef<'a>>)
        requires
            self.0.wf(),
        ensures
            r is Some <==> idx < self.0.count(),
            r matches Some(s) ==> s.wf() && s.pos == polygon_at(
                self.0.data@,
                self.0.endian,
                self.0.pos + 4,
                idx as nat,
            ),
    {
        self.0.get(idx)
    }
}

/// A view of any kind, chosen by the type byte.
#[derive(Clone, Copy, Debug)]
pub enum GeometryRef<'a> {
    Point(PointRef<'a>),
    LineString(LineStringRef<'a>),
    MultiPoint(MultiPointRef<'a>),
    MultiLineString(MultiLineStringRef<'a>),
    Polygon(PolygonRef<'a>),
    MultiPolygon(MultiPolygonRef<'a>),
    Collection(CollectionRef<'a>),
}

impl<'a> GeometryRef<'a> {
    /// The view is well formed.
    pub open spec fn wf(&self) -> bool {
        match self {
            GeometryRef::Point(p) => p.0.wf(),
            GeometryRef::LineString(l) => l.0.wf(),
            GeometryRef::MultiPoint(l) => l.0.wf(),
            GeometryRef::MultiLineString(m) => m.0.wf(),
            GeometryRef::Polygon(m) => m.0.wf(),
            GeometryRef::MultiPolygon(m) => m.0.wf(),
            GeometryRef::Collection(c) => c.wf(),
        }
    }

    /// The bytes the view reads.
    pub open spec fn data(&self) -> &'a [u8] {
        match self {
            GeometryRef::Point(p) => p.0.data,
            GeometryRef::LineString(l) => l.0.data,
            GeometryRef::MultiPoint(l) => l.0.data,
            GeometryRef::MultiLineString(m) => m.0.data,
            GeometryRef::Polygon(m) => m.0.data,
            GeometryRef::MultiPolygon(m) => m.0.data,
            GeometryRef::Collection(c) => c.data,
        }
    }

    /// The byte order the view reads with.
    pub open spec fn endian(&self) -> Endian {
        match self {
            GeometryRef::Point(p) => p.0.endian,
            GeometryRef::LineString(l) => l.0.endian,
            GeometryRef::MultiPoint(l) => l.0.endian,
            GeometryRef::MultiLineString(m) => m.0.endian,
            GeometryRef::Polygon(m) => m.0.endian,
            GeometryRef::MultiPolygon(m) => m.0.endian,
            GeometryRef::Collection(c) => c.endian,
        }
    }

    /// Offset of the type byte of the viewed element.
    pub open spec fn start(&self) -> int {
        match self {
            GeometryRef::Point(p) => p.0.pos - 1,
            GeometryRef::LineString(l) => l.0.pos - 1,
            GeometryRef::MultiPoint(l) => l.0.pos - 1,
            GeometryRef::MultiLineString(m) => m.0.pos - 1,
            GeometryRef::Polygon(m) => m.0.pos - 1,
            GeometryRef::MultiPolygon(m) => m.0.pos - 1,
            GeometryRef::Collection(c) => c.pos - 1,
        }
    }

    /// Checks that `bytes` is one geometry in byte order `endian`; never panics.
    pub fn validate(bytes: &[u8], endian: Endian) -> (r: Result<(), FormatError>)
        ensures
            r is Ok <==> geometry_end(bytes@, endian, 0) == Some(bytes@.len() as int),
            r is Err ==> r == Err::<(), FormatError>(
                FormatError::Body(crate::layout::body_error_at(bytes@, endian, 0) as usize),
            ),
    {
        match geometry_end_exec(bytes, endian, 0) {
            Some(p) => {
                if p == bytes.len() {
                    Ok(())
                } else {
                    Err(FormatError::Body(p))
                }
            },
            None => Err(FormatError::Body(0)),
        }
    }
}

/// The view of the tagged geometry at `pos`, by its type byte.
pub fn geometry_at<'a>(data: &'a [u8], e: Endian, pos: usize) -> (r: GeometryRef<'a>)
    requires
        geometry_end(data@, e, pos as int) is Some,
    ensures
        r.wf(),
        r.start() == pos,
        r.data() == data,
        r.endian() == e,
        data@[pos as int] == 1 <==> r is Point,
        data@[pos as int] == 2 <==> r is LineString,
        data@[pos as int] == 3 <==> r is Polygon,
        data@[pos as int] == 4 <==> r is MultiPoint,
        data@[pos as int] == 5 <==> r is MultiLineString,
        data@[pos as int] == 6 <==> r is MultiPolygon,
        data@[pos as int] == 7 <==> r is Collection,
{
    let t = data[pos];
    let p = pos + 1;
    if t == 1 {
        GeometryRef::Point(PointRef(CoordRef { data, pos: p, endian: e }))
    } else if t == 2 {
        GeometryRef::LineString(LineStringRef(CoordSeqRef { data, pos: p, endian: e }))
    } else if t == 3 {
        GeometryRef::Polygon(PolygonRef(MultiCoordSeqRef { data, pos: p, endian: e }))
    } else if t == 4 {
        GeometryRef::MultiPoint(MultiPointRef(CoordSeqRef { data, pos: p, endian: e }))
    } else if t == 5 {
        GeometryRef::MultiLineString(
            MultiLineStringRef(MultiCoordSeqRef { data, pos: p, endian: e }),
        )
    } else if t == 6 {
        GeometryRef::MultiPolygon(MultiPolygonRef(CoordSegSegSegRef { data, pos: p, endian: e }))
    } else {
        GeometryRef::Collection(CollectionRef { data, pos: p, endian: e })
    }
}

/// A borrowed, validated blob.
#[derive(Clone, Copy, Debug)]
pub struct GeobRef<'a> {
    pub bytes: &'a [u8],
}

impl<'a> GeobRef<'a> {
    pub open spec fn wf(&self) -> bool {
        well_formed(self.bytes@)
    }

    /// Borrows bytes that are known to be well formed.
    pub fn new(bytes: &'a [u8]) -> (r: GeobRef<'a>)
        requires
            well_formed(bytes@),
        ensures
            r.bytes == bytes,
            r.wf(),
    {
        GeobRef { bytes }
    }

    /// Validates and borrows `bytes`.
    pub fn from_bytes(bytes: &'a [u8]) -> (r: Result<GeobRef<'a>, FormatError>)
        ensures
            r is Ok <==> well_formed(bytes@),
            r matches Ok(g) ==> g.bytes == bytes,
            r matches Err(e) ==> check_spec(bytes@) == Err::<(), FormatError>(e),
    {
        match check(bytes) {
            Ok(()) => Ok(GeobRef { bytes }),
            Err(e) => Err(e),
        }
    }

    /// The byte order that the blob announces.
    pub fn endian(&self) -> (r: Endian)
        requires
            self.wf(),
        ensures
            r == blob_endian(self.bytes@),
    {
        if self.bytes[0] == 0 {
            Endian::Big
        } else {
            Endian::Little
        }
    }

    /// The SRID field.
    pub fn srid(&self) -> (r: u32)
        requires
            self.wf(),
        ensures
            r as nat == u32_at(self.bytes@, blob_endian(self.bytes@), 1),
    {
        read_u32(self.bytes, 1, self.endian())
    }

    /// The view of the geometry; its offsets count from the end of the header.
    pub fn geometry(&self) -> (r: GeometryRef<'a>)
        requires
            self.wf(),
        ensures
            r.wf(),
            r.start() == 0,
            r.data()@ == body_of(self.bytes@),
            r.endian() == blob_endian(self.bytes@),
            body_of(self.bytes@)[0] == 1 <==> r is Point,
            body_of(self.bytes@)[0] == 2 <==> r is LineString,
            body_of(self.bytes@)[0] == 3 <==> r is Polygon,
            body_of(self.bytes@)[0] == 4 <==> r is MultiPoint,
            body_of(self.bytes@)[0] == 5 <==> r is MultiLineString,
            body_of(self.bytes@)[0] == 6 <==> r is MultiPolygon,
            body_of(self.bytes@)[0] == 7 <==> r is Collection,
    {
        let e = self.endian();
        let (_, body) = self.bytes.split_at(HEADER_LEN);
        geometry_at(body, e, 0)
    }
}

impl Geob {
    /// The view of the geometry; its offsets count from the end of the header.
    pub fn geometry(&self) -> (r: GeometryRef<'_>)
        requires
            self.wf(),
        ensures
            r.wf(),
            r.start() == 0,
            r.data()@ == body_of(self@),
            r.endian() == blob_endian(self@),
            body_of(self@)[0] == 1 <==> r is Point,
            body_of(self@)[0] == 2 <==> r is LineString,
            body_of(self@)[0] == 3 <==> r is Polygon,
            body_of(self@)[0] == 4 <==> r is MultiPoint,
            body_of(self@)[0] == 5 <==> r is MultiLineString,
            body_of(self@)[0] == 6 <==> r is MultiPolygon,
            body_of(self@)[0] == 7 <==> r is Collection,
    {
        GeobRef::new(self.as_bytes()).geometry()
    }

    /// The point view, where the value is a point.
    pub fn as_point(&self) -> (r: Option<PointRef<'_>>)
        requires
            self.wf(),
        ensures
            r is Some <==> body_of(self@)[0] == 1,
            r matches Some(p) ==> p.0.wf() && p.0.pos == 1 && p.0.data@ == body_of(self@)
                && p.0.endian == blob_endian(self@),
    {
        match self.geometry() {
            GeometryRef::Point(p) => Some(p),
            _ => None,
        }
    }

    /// The line string view, where the value is a line string.
    pub fn as_line_string(&self) -> (r: Option<LineStringRef<'_>>)
        requires
            self.wf(),
        ensures
            r is Some <==> body_of(self@)[0] == 2,
            r matches Some(l) ==> l.0.wf() && l.0.pos == 1 && l.0.data@ == body_of(self@)
                && l.0.endian == blob_endian(self@),
    {
        match self.geometry() {
            GeometryRef::LineString(l) => Some(l),
            _ => None,
        }
    }

    /// The polygon view, where the value is a polygon.
    pub fn as_polygon(&self) -> (r: Option<PolygonRef<'_>>)
        requires
            self.wf(),
        ensures
            r is Some <==> body_of(self@)[0] == 3,
            r matches Some(p) ==> p.0.wf() && p.0.pos == 1 && p.0.data@ == body_of(self@)
                && p.0.endian == blob_endian(self@),
    {
        match self.geometry() {
            GeometryRef::Polygon(p) => Some(p),
            _ => None,
        }
    }
}

} // verus!
