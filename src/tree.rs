//! The spatial index itself: entries keyed by row id, each with its bounding
//! box, searched by envelope or, for point indices, by great-circle distance.
//! The entries are kept in a vector and every search scans all of them.
//! Doubles are held as bit patterns and compared by IEEE 754 `<=`.
use vstd::prelude::*;
use crate::geob::{Geob, point_blob, srid_of};
use crate::index::{GeometryType, IndexError, haversine};
use crate::layout::{blob_endian, body_of, coords_end, geometry_end, rings_from};
use crate::projection::coords_of;
use crate::query::{Query, SelectError, Strategy, select_spec, select_strategy};
use crate::scalar::{
    Endian, lemma_u32_round_trip, push_u32, push_u64, u32_at, u32_bytes, u64_at, u64_bytes,
};

verus! {

/// The double with bit pattern `b` is NaN.
pub open spec fn is_nan(b: u64) -> bool {
    (b >> 52u64) & 0x7ffu64 == 0x7ffu64 && b & 0xf_ffff_ffff_ffffu64 != 0
}

/// The double with bit pattern `b` is `+0` or `-0`.
pub open spec fn is_zero(b: u64) -> bool {
    b & 0x7fff_ffff_ffff_ffffu64 == 0
}

/// A key whose unsigned order is the order of the (non-NaN) doubles.
pub open spec fn order_key(b: u64) -> u64 {
    if b >= 0x8000_0000_0000_0000u64 {
        !b
    } else {
        b | 0x8000_0000_0000_0000u64
    }
}

/// IEEE 754 `a <= b` on the doubles with bit patterns `a` and `b`.
pub open spec fn double_le(a: u64, b: u64) -> bool {
    !is_nan(a) && !is_nan(b) && ((is_zero(a) && is_zero(b)) || order_key(a) <= order_key(b))
}

/// IEEE 754 `a <= b` on bit patterns.
pub fn le_double(a: u64, b: u64) -> (r: bool)
    ensures
        r == double_le(a, b),
{
    let nan_a = (a >> 52u64) & 0x7ffu64 == 0x7ffu64 && a & 0xf_ffff_ffff_ffffu64 != 0;
    let nan_b = (b >> 52u64) & 0x7ffu64 == 0x7ffu64 && b & 0xf_ffff_ffff_ffffu64 != 0;
    if nan_a || nan_b {
        return false;
    }
    if a & 0x7fff_ffff_ffff_ffffu64 == 0 && b & 0x7fff_ffff_ffff_ffffu64 == 0 {
        return true;
    }
    let ka = if a >= 0x8000_0000_0000_0000u64 {
        !a
    } else {
        a | 0x8000_0000_0000_0000u64
    };
    let kb = if b >= 0x8000_0000_0000_0000u64 {
        !b
    } else {
        b | 0x8000_0000_0000_0000u64
    };
    ka <= kb
}

/// An axis-aligned box, corners as bit patterns of doubles.
#[derive(Clone, Copy, Debug, PartialEq, Eq, Structural)]
pub struct BBox {
    pub min_x: u64,
    pub min_y: u64,
    pub max_x: u64,
    pub max_y: u64,
}

/// Two boxes share at least one point.
pub open spec fn meets(a: BBox, e: BBox) -> bool {
    double_le(a.min_x, e.max_x) && double_le(e.min_x, a.max_x) && double_le(a.min_y, e.max_y)
        && double_le(e.min_y, a.max_y)
}

/// The box of a list of pairs, `None` for an empty list.
pub open spec fn bbox_of(ps: Seq<(u64, u64)>) -> Option<BBox>
    decreases ps.len(),
{
    if ps.len() == 0 {
        None
    } else {
        let (x, y) = ps.last();
        match bbox_of(ps.drop_last()) {
            None => Some(BBox { min_x: x, min_y: y, max_x: x, max_y: y }),
            Some(b) => Some(
                BBox {
                    min_x: if double_le(x, b.min_x) {
                        x
                    } else {
                        b.min_x
                    },
                    min_y: if double_le(y, b.min_y) {
                        y
                    } else {
                        b.min_y
                    },
                    max_x: if double_le(b.max_x, x) {
                        x
                    } else {
                        b.max_x
                    },
                    max_y: if double_le(b.max_y, y) {
                        y
                    } else {
                        b.max_y
                    },
                },
            ),
        }
    }
}

/// The box of a list of pairs.
pub fn bbox(ps: &Vec<(u64, u64)>) -> (r: Option<BBox>)
    ensures
        r == bbox_of(ps@),
{
    let mut r: Option<BBox> = None;
    let mut i: usize = 0;
    while i < ps.len()
        invariant
            i <= ps@.len(),
            r == bbox_of(ps@.subrange(0, i as int)),
        decreases ps@.len() - i,
    {
        let (x, y) = ps[i];
        proof {
            assert(ps@.subrange(0, i + 1).drop_last() =~= ps@.subrange(0, i as int));
        }
        r = match r {
            None => Some(BBox { min_x: x, min_y: y, max_x: x, max_y: y }),
            Some(b) => Some(
                BBox {
                    min_x: if le_double(x, b.min_x) {
                        x
                    } else {
                        b.min_x
                    },
                    min_y: if le_double(y, b.min_y) {
                        y
                    } else {
                        b.min_y
                    },
                    max_x: if le_double(b.max_x, x) {
                        x
                    } else {
                        b.max_x
                    },
                    max_y: if le_double(b.max_y, y) {
                        y
                    } else {
                        b.max_y
                    },
                },
            ),
        };
        i = i + 1;
    }
    assert(ps@.subrange(0, ps@.len() as int) =~= ps@);
    r
}

/// The ring `(min_x min_y, max_x min_y, max_x max_y, min_x max_y, min_x min_y)`
/// around `b`, little-endian.
pub open spec fn ring_bytes(b: BBox) -> Seq<u8> {
    let le = Endian::Little;
    u64_bytes(b.min_x, le) + u64_bytes(b.min_y, le) + u64_bytes(b.max_x, le) + u64_bytes(
        b.min_y,
        le,
    ) + u64_bytes(b.max_x, le) + u64_bytes(b.max_y, le) + u64_bytes(b.min_x, le) + u64_bytes(
        b.max_y,
        le,
    ) + u64_bytes(b.min_x, le) + u64_bytes(b.min_y, le)
}

/// The little-endian blob of the polygon whose single ring runs around `b`.
pub open spec fn envelope_blob(srid: u32, b: BBox) -> Seq<u8> {
    let le = Endian::Little;
    seq![1u8] + u32_bytes(srid, le) + (seq![3u8] + u32_bytes(1, le) + u32_bytes(5, le)
        + ring_bytes(b))
}

fn envelope_bytes(srid: u32, b: BBox) -> (r: Vec<u8>)
    ensures
        r@ == envelope_blob(srid, b),
{
    let le = Endian::Little;
    let mut out: Vec<u8> = Vec::new();
    out.push(1);
    push_u32(&mut out, srid, le);
    out.push(3);
    push_u32(&mut out, 1, le);
    push_u32(&mut out, 5, le);
    push_u64(&mut out, b.min_x, le);
    push_u64(&mut out, b.min_y, le);
    push_u64(&mut out, b.max_x, le);
    push_u64(&mut out, b.min_y, le);
    push_u64(&mut out, b.max_x, le);
    push_u64(&mut out, b.max_y, le);
    push_u64(&mut out, b.min_x, le);
    push_u64(&mut out, b.max_y, le);
    push_u64(&mut out, b.min_x, le);
    push_u64(&mut out, b.min_y, le);
    assert(out@ =~= envelope_blob(srid, b));
    out
}

proof fn lemma_ring_bytes_len(b: BBox)
    ensures
        ring_bytes(b).len() == 80,
{
    let le = Endian::Little;
    crate::scalar::lemma_u64_bytes_len(b.min_x, le);
    crate::scalar::lemma_u64_bytes_len(b.min_y, le);
    crate::scalar::lemma_u64_bytes_len(b.max_x, le);
    crate::scalar::lemma_u64_bytes_len(b.max_y, le);
}

proof fn lemma_one_ring_body(ring: Seq<u8>)
    requires
        ring.len() == 80,
    ensures
        geometry_end(
            seq![3u8] + u32_bytes(1, Endian::Little) + u32_bytes(5, Endian::Little) + ring,
            Endian::Little,
            0,
        ) == Some(89int),
{
    let le = Endian::Little;
    let body = seq![3u8] + u32_bytes(1, le) + u32_bytes(5, le) + ring;
    lemma_u32_round_trip(seq![3u8], 1, le, u32_bytes(5, le) + ring);
    assert(seq![3u8] + u32_bytes(1, le) + (u32_bytes(5, le) + ring) =~= body);
    lemma_u32_round_trip(seq![3u8] + u32_bytes(1, le), 5, le, ring);
    assert(body.len() == 89);
    assert(u32_at(body, le, 1) == 1);
    assert(u32_at(body, le, 5) == 5);
    assert(coords_end(body, le, 5) == Some(89int));
    assert(rings_from(body, le, 89, 0) == Some(89int));
    assert(rings_from(body, le, 5, 1) == Some(89int));
}

proof fn lemma_envelope_blob_wf(srid: u32, b: BBox)
    ensures
        crate::layout::well_formed(envelope_blob(srid, b)),
{
    let le = Endian::Little;
    lemma_ring_bytes_len(b);
    let body = seq![3u8] + u32_bytes(1, le) + u32_bytes(5, le) + ring_bytes(b);
    lemma_one_ring_body(ring_bytes(b));
    let blob = envelope_blob(srid, b);
    assert(u32_bytes(srid, le).len() == 4);
    assert(body_of(blob) =~= body);
}

impl Geob {
    /// The axis-aligned box of the value as a polygon with the same SRID, or
    /// `None` where the value has no coordinates.
    pub fn envelope(&self) -> (r: Option<Geob>)
        requires
            self.wf(),
        ensures
            r is None <==> coords_of(self@).len() == 0,
            r matches Some(g) ==> g.wf() && (bbox_of(coords_of(self@)) matches Some(b) && g@
                == envelope_blob(srid_of(self@) as u32, b)),
    {
        let b = match bbox(&self.coords()) {
            Some(b) => b,
            None => {
                return None;
            },
        };
        let srid = self.srid();
        let out = envelope_bytes(srid, b);
        proof {
            lemma_envelope_blob_wf(srid, b);
        }
        Some(Geob::new(out))
    }
}

/// What an entry holds besides its id and box.
#[derive(Clone, Debug)]
pub enum StoredValue {
    /// The pair of a point index entry, as bit patterns.
    Point(u64, u64),
    /// The whole value of another index's entry.
    Shape(Geob),
}

/// One row of the index.
#[derive(Clone, Debug)]
pub struct Stored {
    pub id: u64,
    pub bbox: BBox,
    pub value: StoredValue,
}

/// The entry's box is the box of what it holds.
pub open spec fn stored_ok(s: Stored) -> bool {
    match s.value {
        StoredValue::Point(x, y) => s.bbox == BBox { min_x: x, min_y: y, max_x: x, max_y: y },
        StoredValue::Shape(g) => g.wf() && bbox_of(coords_of(g@)) == Some(s.bbox),
    }
}

/// The row ids of a list of entries.
pub open spec fn ids_of(es: Seq<Stored>) -> Seq<u64> {
    es.map_values(|s: Stored| s.id)
}

/// The entries whose box meets `e`.
pub open spec fn envelope_hits(es: Seq<Stored>, e: BBox) -> Seq<Stored> {
    es.filter(|s: Stored| meets(s.bbox, e))
}

/// The point entries whose distance, `ds` at the same position, is at most `d`.
pub open spec fn within_hits(es: Seq<Stored>, ds: Seq<u64>, d: u64) -> Seq<Stored>
    decreases es.len(),
{
    if es.len() == 0 {
        Seq::empty()
    } else {
        let n = es.len() - 1;
        within_hits(es.drop_last(), ds, d) + if es[n].value is Point && double_le(ds[n], d) {
            seq![es[n]]
        } else {
            Seq::empty()
        }
    }
}

/// The rows that a scan yields, after the id filter.
pub open spec fn with_id(es: Seq<Stored>, id: Option<u64>) -> Seq<Stored> {
    match id {
        Some(k) => es.filter(|s: Stored| s.id == k),
        None => es,
    }
}

/// The entries whose row id is not `id`, in order.
pub open spec fn without(es: Seq<Stored>, id: u64) -> Seq<Stored> {
    es.filter(|s: Stored| s.id != id)
}

/// What an index of type `ty` stores for a value `geo` whose box is `b`.
pub open spec fn stored_for(ty: GeometryType, id: u64, geo: Geob) -> Stored {
    let e = blob_endian(geo@);
    Stored {
        id,
        bbox: bbox_of(coords_of(geo@))->0,
        value: if ty == GeometryType::Point {
            StoredValue::Point(
                u64_at(body_of(geo@), e, 1) as u64,
                u64_at(body_of(geo@), e, 9) as u64,
            )
        } else {
            StoredValue::Shape(geo)
        },
    }
}

proof fn lemma_filter_all(es: Seq<Stored>, id: u64)
    requires
        forall|j: int| 0 <= j < es.len() ==> (#[trigger] es[j]).id != id,
    ensures
        without(es, id) == es,
    decreases es.len(),
{
    reveal_with_fuel(Seq::filter, 1);
    if es.len() > 0 {
        lemma_filter_all(es.drop_last(), id);
        assert(es.drop_last().push(es.last()) =~= es);
    }
}

proof fn lemma_filter_one(es: Seq<Stored>, i: int, id: u64)
    requires
        0 <= i < es.len(),
        es[i].id == id,
        forall|j: int| 0 <= j < es.len() && j != i ==> (#[trigger] es[j]).id != id,
    ensures
        without(es, id) == es.remove(i),
    decreases es.len(),
{
    reveal_with_fuel(Seq::filter, 1);
    let d = es.drop_last();
    if i == es.len() - 1 {
        lemma_filter_all(d, id);
        assert(es.remove(i) =~= d);
    } else {
        lemma_filter_one(d, i, id);
        assert(es.remove(i) =~= d.remove(i).push(es.last()));
    }
}

/// A point or geometry index.
pub struct SpatialIndex {
    ty: GeometryType,
    srid: u32,
    entries: Vec<Stored>,
}

impl SpatialIndex {
    pub closed spec fn entries(&self) -> Seq<Stored> {
        self.entries@
    }

    pub closed spec fn kind(&self) -> GeometryType {
        self.ty
    }

    pub closed spec fn srid_spec(&self) -> u32 {
        self.srid
    }

    /// The set of row ids held.
    pub open spec fn ids(&self) -> Set<u64> {
        ids_of(self.entries()).to_set()
    }

    /// Row ids are unique, every box is right, a point index holds points.
    pub open spec fn wf(&self) -> bool {
        &&& ids_of(self.entries()).no_duplicates()
        &&& forall|i: int| 0 <= i < self.entries().len() ==> stored_ok(#[trigger] self.entries()[i])
        &&& self.kind() == GeometryType::Point ==> forall|i: int|
            0 <= i < self.entries().len() ==> #[trigger] self.entries()[i].value is Point
    }

    /// An empty index for values of type `ty` in `srid`.
    pub fn new(ty: GeometryType, srid: u32) -> (r: SpatialIndex)
        ensures
            r.wf(),
            r.entries().len() == 0,
            r.kind() == ty,
            r.srid_spec() == srid,
    {
        let r = SpatialIndex { ty, srid, entries: Vec::new() };
        assert(ids_of(r.entries@) =~= Seq::<u64>::empty());
        r
    }

    /// Number of rows held.
    pub fn len(&self) -> (r: usize)
        requires
            self.wf(),
        ensures
            r == self.entries().len(),
            r == self.ids().len(),
    {
        proof {
            ids_of(self.entries()).unique_seq_to_set();
        }
        self.entries.len()
    }

    fn position(&self, id: u64) -> (r: Option<usize>)
        ensures
            r matches Some(i) ==> i < self.entries().len() && self.entries()[i as int].id == id,
            r is None ==> !ids_of(self.entries()).contains(id),
    {
        let mut i: usize = 0;
        while i < self.entries.len()
            invariant
                i <= self.entries@.len(),
                forall|j: int| 0 <= j < i ==> self.entries@[j].id != id,
            decreases self.entries@.len() - i,
        {
            if self.entries[i].id == id {
                return Some(i);
            }
            i = i + 1;
        }
        proof {
            if ids_of(self.entries()).contains(id) {
                let j = ids_of(self.entries()).index_of(id);
                assert(self.entries@[j].id == id);
            }
        }
        None
    }

    /// Removes the row `id`; gives `id` back where it was held.
    pub fn remove(&mut self, id: u64) -> (r: Option<u64>)
        requires
            old(self).wf(),
        ensures
            final(self).wf(),
            final(self).kind() == old(self).kind(),
            final(self).srid_spec() == old(self).srid_spec(),
            final(self).ids() == old(self).ids().remove(id),
            r is Some <==> old(self).ids().contains(id),
            r matches Some(k) ==> k == id,
            forall|s: Stored| #[trigger]
                final(self).entries().contains(s) <==> old(self).entries().contains(s) && s.id
                    != id,
            final(self).entries() == without(old(self).entries(), id),
    {
        proof {
            ids_of(self.entries()).unique_seq_to_set();
        }
        match self.position(id) {
            None => {
                proof {
                    assert forall|j: int| 0 <= j < self.entries().len() implies (
                    #[trigger] self.entries()[j]).id != id by {
                        assert(ids_of(self.entries())[j] == self.entries()[j].id);
                    }
                    lemma_filter_all(self.entries(), id);
                    assert(self.ids() =~= self.ids().remove(id));
                    assert forall|s: Stored| #[trigger] self.entries().contains(s) implies s.id
                        != id by {
                        let j = self.entries().index_of(s);
                        assert(ids_of(self.entries())[j] == s.id);
                    }
                }
                None
            },
            Some(i) => {
                let ghost before = self.entries@;
                assert(ids_of(before)[i as int] == id);
                self.entries.remove(i);
                proof {
                    assert forall|j: int| 0 <= j < before.len() && j != i implies (
                    #[trigger] before[j]).id != id by {
                        assert(ids_of(before)[j] == before[j].id);
                        assert(ids_of(before)[i as int] == before[i as int].id);
                    }
                    lemma_filter_one(before, i as int, id);
                    lemma_remove_unique(before, i as int);
                    assert(self.entries@ =~= before.remove(i as int));
                }
                Some(id)
            },
        }
    }

    /// Adds the row `id` holding `geo`, replacing an earlier row of that id.
    /// A point index takes points only; a value without coordinates has no
    /// box and is refused.
    pub fn insert(&mut self, id: u64, geo: Geob) -> (r: Result<(), IndexError>)
        requires
            old(self).wf(),
            geo.wf(),
        ensures
            final(self).wf(),
            final(self).kind() == old(self).kind(),
            final(self).srid_spec() == old(self).srid_spec(),
            r == Err::<(), IndexError>(IndexError::NotAPoint) <==> old(self).kind()
                == GeometryType::Point && body_of(geo@)[0] != 1,
            r == Err::<(), IndexError>(IndexError::Empty) <==> !(old(self).kind()
                == GeometryType::Point && body_of(geo@)[0] != 1) && coords_of(geo@).len() == 0,
            r is Err ==> *final(self) == *old(self),
            r is Ok ==> final(self).ids() == old(self).ids().insert(id),
            r is Ok ==> final(self).entries() == without(old(self).entries(), id).push(
                stored_for(old(self).kind(), id, geo),
            ),
    {
        let is_point_index = match self.ty {
            GeometryType::Point => true,
            _ => false,
        };
        let value = if is_point_index {
            match geo.as_point() {
                Some(p) => StoredValue::Point(p.x(), p.y()),
                None => {
                    return Err(IndexError::NotAPoint);
                },
            }
        } else {
            StoredValue::Point(0, 0)
        };
        let pairs = geo.coords();
        let b = match bbox(&pairs) {
            Some(b) => b,
            None => {
                return Err(IndexError::Empty);
            },
        };
        let ghost given = geo;
        let value = if is_point_index {
            value
        } else {
            StoredValue::Shape(geo)
        };
        self.remove(id);
        let entry = Stored { id, bbox: b, value };
        proof {
            if !is_point_index {
                assert(value matches StoredValue::Shape(g) && g@ == given@);
            }
            if is_point_index {
                let e = blob_endian(geo@);
                assert(coords_of(geo@) =~= seq![
                    (u64_at(body_of(geo@), e, 1) as u64, u64_at(body_of(geo@), e, 9) as u64),
                ]);
                assert(coords_of(geo@).drop_last() =~= Seq::<(u64, u64)>::empty());
                assert(bbox_of(Seq::<(u64, u64)>::empty()) is None);
                assert(bbox_of(coords_of(geo@)) == Some(
                    BBox {
                        min_x: u64_at(body_of(geo@), e, 1) as u64,
                        min_y: u64_at(body_of(geo@), e, 9) as u64,
                        max_x: u64_at(body_of(geo@), e, 1) as u64,
                        max_y: u64_at(body_of(geo@), e, 9) as u64,
                    },
                ));
            }
        }
        let ghost before = self.entries@;
        proof {
            assert(!self.ids().contains(id));
            assert(!ids_of(before).contains(id));
            if entry.value is Point {
                let x = entry.value->Point_0;
                let y = entry.value->Point_1;
                assert(bbox_of(coords_of(geo@)) == Some(
                    BBox { min_x: x, min_y: y, max_x: x, max_y: y },
                ));
            } else {
                let g = entry.value->Shape_0;
                assert(g.wf());
                assert(bbox_of(coords_of(g@)) == Some(b));
            }
        }
        self.entries.push(entry);
        proof {
            assert(entry == stored_for(self.ty, id, given));
            lemma_push_unique(before, entry);
            assert(self.entries@ =~= before.push(entry));
            assert(stored_ok(entry));
            assert forall|i: int| 0 <= i < self.entries@.len() implies stored_ok(
                #[trigger] self.entries@[i],
            ) by {
                if i < before.len() {
                    assert(self.entries@[i] == before[i]);
                }
            }
        }
        Ok(())
    }

    /// The rows at the positions `ps`.
    pub open spec fn rows_at(&self, ps: Seq<usize>) -> Seq<Stored> {
        ps.map_values(|i: usize| self.entries()[i as int])
    }

    /// Every position is one of a held row.
    pub open spec fn in_range(&self, ps: Seq<usize>) -> bool {
        forall|k: int| 0 <= k < ps.len() ==> #[trigger] ps[k] < self.entries().len()
    }

    /// The positions of the rows whose box meets `e`, in storage order.
    pub fn locate_in_envelope(&self, e: BBox) -> (r: Vec<usize>)
        requires
            self.wf(),
        ensures
            self.in_range(r@),
            self.rows_at(r@) == envelope_hits(self.entries(), e),
    {
        let mut r: Vec<usize> = Vec::new();
        let mut i: usize = 0;
        while i < self.entries.len()
            invariant
                i <= self.entries@.len(),
                self.in_range(r@),
                self.rows_at(r@) == envelope_hits(self.entries@.subrange(0, i as int), e),
            decreases self.entries@.len() - i,
        {
            let s = &self.entries[i];
            let hit = le_double(s.bbox.min_x, e.max_x) && le_double(e.min_x, s.bbox.max_x)
                && le_double(s.bbox.min_y, e.max_y) && le_double(e.min_y, s.bbox.max_y);
            proof {
                assert(hit == meets(self.entries@[i as int].bbox, e));
                lemma_filter_step(self.entries@, i as int, |s: Stored| meets(s.bbox, e));
            }
            if hit {
                let ghost before = r@;
                r.push(i);
                proof {
                    assert(self.rows_at(r@) =~= self.rows_at(before).push(self.entries@[i as int]));
                }
            }
            i = i + 1;
        }
        assert(self.entries@.subrange(0, self.entries@.len() as int) =~= self.entries@);
        r
    }

    /// The great-circle distance from each row to `(x, y)`, in storage
    /// order; `0` for rows that are not points.
    pub fn distances_to(&self, x: u64, y: u64) -> (r: Vec<u64>)
        ensures
            r@.len() == self.entries().len(),
            forall|i: int|
                0 <= i < r@.len() && self.entries()[i].value is Shape ==> #[trigger] r@[i] == 0,
    {
        let mut r: Vec<u64> = Vec::new();
        let mut i: usize = 0;
        while i < self.entries.len()
            invariant
                i <= self.entries@.len(),
                r@.len() == i,
                forall|j: int| 0 <= j < i && self.entries@[j].value is Shape ==> #[trigger] r@[j] == 0,
            decreases self.entries@.len() - i,
        {
            let d = match self.entries[i].value {
                StoredValue::Point(px, py) => haversine(px, py, x, y),
                StoredValue::Shape(_) => 0,
            };
            r.push(d);
            i = i + 1;
        }
        r
    }

    /// The positions of the point rows whose distance in `ds` is at most `d`.
    pub fn within(&self, ds: &Vec<u64>, d: u64) -> (r: Vec<usize>)
        requires
            ds@.len() == self.entries().len(),
        ensures
            self.in_range(r@),
            self.rows_at(r@) == within_hits(self.entries(), ds@, d),
    {
        let mut r: Vec<usize> = Vec::new();
        let mut i: usize = 0;
        while i < self.entries.len()
            invariant
                i <= self.entries@.len(),
                ds@.len() == self.entries@.len(),
                self.in_range(r@),
                self.rows_at(r@) == within_hits(self.entries@.subrange(0, i as int), ds@, d),
            decreases self.entries@.len() - i,
        {
            let hit = match self.entries[i].value {
                StoredValue::Point(_, _) => le_double(ds[i], d),
                StoredValue::Shape(_) => false,
            };
            proof {
                let sub = self.entries@.subrange(0, i + 1);
                assert(sub.drop_last() =~= self.entries@.subrange(0, i as int));
                assert(sub[i as int] == self.entries@[i as int]);
            }
            let ghost before = r@;
            if hit {
                r.push(i);
                proof {
                    assert(self.rows_at(r@) =~= self.rows_at(before) + seq![self.entries@[i as int]]);
                }
            } else {
                assert(self.rows_at(before) + Seq::<Stored>::empty() =~= self.rows_at(before));
            }
            i = i + 1;
        }
        assert(self.entries@.subrange(0, self.entries@.len() as int) =~= self.entries@);
        r
    }

    /// The point rows within great-circle distance `d` (the bit pattern of a
    /// double, in metres) of `(x, y)`, by the distances that `distances_to`
    /// computes.
    pub fn locate_within_distance(&self, x: u64, y: u64, d: u64) -> (r: Vec<usize>)
        requires
            self.wf(),
        ensures
            self.in_range(r@),
            exists|ds: Seq<u64>|
                ds.len() == self.entries().len() && self.rows_at(r@) == within_hits(
                    self.entries(),
                    ds,
                    d,
                ),
    {
        let ds = self.distances_to(x, y);
        self.within(&ds, d)
    }

    /// The positions of every row, in storage order.
    pub fn iter(&self) -> (r: Vec<usize>)
        ensures
            self.in_range(r@),
            self.rows_at(r@) == self.entries(),
    {
        let mut r: Vec<usize> = Vec::new();
        let mut i: usize = 0;
        while i < self.entries.len()
            invariant
                i <= self.entries@.len(),
                self.in_range(r@),
                r@.len() == i,
                forall|k: int| 0 <= k < i ==> r@[k] == k,
                self.rows_at(r@) == self.entries@.subrange(0, i as int),
            decreases self.entries@.len() - i,
        {
            r.push(i);
            proof {
                assert(self.rows_at(r@) =~= self.entries@.subrange(0, i + 1));
            }
            i = i + 1;
        }
        assert(self.entries@.subrange(0, self.entries@.len() as int) =~= self.entries@);
        r
    }

    /// Runs a query: the scan that `select_strategy` picks, then the id filter.
    pub fn select(&self, q: &Query) -> (r: Result<Vec<usize>, SelectError>)
        requires
            self.wf(),
            q.geometry_eq matches Some(g) ==> g.wf(),
            q.geometry_match matches Some(g) ==> g.wf(),
        ensures
            r is Err <==> select_spec(*q, self.kind() == GeometryType::Point) is Err,
            r matches Ok(rows) ==> self.in_range(rows@),
            r matches Ok(rows) ==> select_spec(*q, self.kind() == GeometryType::Point) matches Ok(
                sel,
            ) && (sel.strategy == Strategy::WithinDistance ==> exists|ds: Seq<u64>|
                ds.len() == self.entries().len() && self.rows_at(rows@) == with_id(
                    within_hits(self.entries(), ds, q.distance_lt->0),
                    sel.id_filter,
                )) && (sel.strategy == Strategy::EnvelopeOfMatch ==> self.rows_at(rows@) == with_id(
                match bbox_of(coords_of(q.geometry_match->0@)) {
                    Some(e) => envelope_hits(self.entries(), e),
                    None => Seq::empty(),
                },
                sel.id_filter,
            )) && (sel.strategy == Strategy::EnvelopeOfEq ==> self.rows_at(rows@) == with_id(
                match bbox_of(coords_of(q.geometry_eq->0@)) {
                    Some(e) => envelope_hits(self.entries(), e),
                    None => Seq::empty(),
                },
                sel.id_filter,
            )) && (sel.strategy == Strategy::Full ==> self.rows_at(rows@) == with_id(
                self.entries(),
                sel.id_filter,
            )),
    {
        let is_point_index = match self.ty {
            GeometryType::Point => true,
            _ => false,
        };
        let sel = select_strategy(q, is_point_index)?;
        let ghost mut rows_witness: Seq<u64> = Seq::empty();
        let rows = match sel.strategy {
            Strategy::WithinDistance => {
                let g = q.geometry_eq.as_ref().unwrap();
                let p = g.as_point().unwrap();
                let ds = self.distances_to(p.x(), p.y());
                let found = self.within(&ds, q.distance_lt.unwrap());
                proof {
                    rows_witness = ds@;
                }
                found
            },
            Strategy::EnvelopeOfMatch => {
                let g = q.geometry_match.as_ref().unwrap();
                match bbox(&g.coords()) {
                    Some(e) => self.locate_in_envelope(e),
                    None => Vec::new(),
                }
            },
            Strategy::EnvelopeOfEq => {
                let g = q.geometry_eq.as_ref().unwrap();
                match bbox(&g.coords()) {
                    Some(e) => self.locate_in_envelope(e),
                    None => Vec::new(),
                }
            },
            Strategy::Full => self.iter(),
        };
        let kept = match sel.id_filter {
            None => rows,
            Some(k) => self.keep_id(&rows, k),
        };
        proof {
            if sel.strategy == Strategy::WithinDistance {
                assert(rows_witness.len() == self.entries().len() && self.rows_at(kept@) == with_id(
                    within_hits(self.entries(), rows_witness, q.distance_lt->0),
                    sel.id_filter,
                ));
            }
        }
        Ok(kept)
    }

    /// The positions among `rows` whose row id is `k`.
    fn keep_id(&self, rows: &Vec<usize>, k: u64) -> (r: Vec<usize>)
        requires
            self.in_range(rows@),
        ensures
            self.in_range(r@),
            self.rows_at(r@) == self.rows_at(rows@).filter(|s: Stored| s.id == k),
    {
        let mut r: Vec<usize> = Vec::new();
        let mut i: usize = 0;
        while i < rows.len()
            invariant
                i <= rows@.len(),
                self.in_range(rows@),
                self.in_range(r@),
                self.rows_at(r@) == self.rows_at(rows@.subrange(0, i as int)).filter(
                    |s: Stored| s.id == k,
                ),
            decreases rows@.len() - i,
        {
            let at = rows[i];
            proof {
                let all = self.rows_at(rows@);
                assert(self.rows_at(rows@.subrange(0, i + 1)) =~= all.subrange(0, i + 1));
                assert(self.rows_at(rows@.subrange(0, i as int)) =~= all.subrange(0, i as int));
                lemma_filter_step(all, i as int, |s: Stored| s.id == k);
            }
            if self.entries[at].id == k {
                let ghost before = r@;
                r.push(at);
                proof {
                    assert(self.rows_at(r@) =~= self.rows_at(before).push(self.entries@[at as int]));
                }
            }
            i = i + 1;
        }
        assert(rows@.subrange(0, rows@.len() as int) =~= rows@);
        r
    }

    /// The row id and value of the row at position `i`.
    pub fn row(&self, i: usize) -> (r: (u64, Geob))
        requires
            self.wf(),
            i < self.entries().len(),
        ensures
            r.0 == self.entries()[i as int].id,
            r.1.wf(),
            self.entries()[i as int].value matches StoredValue::Point(x, y) ==> r.1@ == point_blob(
                self.srid_spec(),
                x,
                y,
            ),
            self.entries()[i as int].value matches StoredValue::Shape(g) ==> r.1@ == g@,
    {
        let s = &self.entries[i];
        assert(stored_ok(self.entries@[i as int]));
        let g = match &s.value {
            StoredValue::Point(x, y) => Geob::new_point(self.srid, *x, *y),
            StoredValue::Shape(g) => g.duplicate(),
        };
        (s.id, g)
    }
}

proof fn lemma_remove_unique(es: Seq<Stored>, i: int)
    requires
        0 <= i < es.len(),
        ids_of(es).no_duplicates(),
    ensures
        ids_of(es.remove(i)).no_duplicates(),
        ids_of(es.remove(i)).to_set() == ids_of(es).to_set().remove(es[i].id),
        forall|s: Stored| #[trigger]
            es.remove(i).contains(s) <==> es.contains(s) && s.id != es[i].id,
{
    let ob = ids_of(es);
    let ns = es.remove(i);
    let nb = ids_of(ns);
    let id = es[i].id;
    assert forall|a: int| 0 <= a < nb.len() implies nb[a] == ob[if a < i { a } else { a + 1 }] by {
    }
    assert forall|a: int, b: int| 0 <= a < nb.len() && 0 <= b < nb.len() && a != b implies nb[a]
        != nb[b] by {
        let a2 = if a < i { a } else { a + 1 };
        let b2 = if b < i { b } else { b + 1 };
        assert(nb[a] == ob[a2]);
        assert(nb[b] == ob[b2]);
    }
    assert forall|k: u64| nb.to_set().contains(k) <==> ob.to_set().remove(id).contains(k) by {
        if nb.contains(k) {
            let a = nb.index_of(k);
            let a2 = if a < i { a } else { a + 1 };
            assert(ob[a2] == k);
            assert(ob[i] == id);
            assert(ob.contains(k));
        }
        if ob.contains(k) && k != id {
            let a2 = ob.index_of(k);
            assert(a2 != i);
            let a = if a2 < i { a2 } else { a2 - 1 };
            assert(nb[a] == k);
        }
    }
    assert(nb.to_set() =~= ob.to_set().remove(id));
    assert forall|s: Stored| #[trigger] ns.contains(s) <==> es.contains(s) && s.id != id by {
        if ns.contains(s) {
            let a = ns.index_of(s);
            let a2 = if a < i { a } else { a + 1 };
            assert(es[a2] == s);
            assert(ob[a2] == s.id);
            assert(ob[i] == id);
        }
        if es.contains(s) && s.id != id {
            let a2 = es.index_of(s);
            assert(a2 != i);
            let a = if a2 < i { a2 } else { a2 - 1 };
            assert(ns[a] == s);
        }
    }
}

proof fn lemma_push_unique(es: Seq<Stored>, s: Stored)
    requires
        ids_of(es).no_duplicates(),
        !ids_of(es).contains(s.id),
    ensures
        ids_of(es.push(s)).no_duplicates(),
        ids_of(es.push(s)).to_set() == ids_of(es).to_set().insert(s.id),
{
    let ob = ids_of(es);
    let nb = ids_of(es.push(s));
    assert(nb =~= ob.push(s.id));
    assert forall|k: u64| nb.to_set().contains(k) <==> ob.to_set().insert(s.id).contains(k) by {
        if nb.contains(k) {
            let a = nb.index_of(k);
            if a < ob.len() {
                assert(ob[a] == k);
            }
        }
        if ob.contains(k) {
            let a = ob.index_of(k);
            assert(nb[a] == k);
        }
        if k == s.id {
            assert(nb[ob.len() as int] == k);
        }
    }
    assert(nb.to_set() =~= ob.to_set().insert(s.id));
}

proof fn lemma_push_contains(s: Seq<Stored>, l: Stored, x: Stored)
    ensures
        s.push(l).contains(x) <==> s.contains(x) || l == x,
{
    if s.contains(x) {
        let i = s.index_of(x);
        assert(s.push(l)[i] == x);
    }
    if l == x {
        assert(s.push(l)[s.len() as int] == x);
    }
    if s.push(l).contains(x) {
        let i = s.push(l).index_of(x);
        if i < s.len() {
            assert(s[i] == x);
        }
    }
}

/// A filtered list holds exactly the elements of the list that pass.
proof fn lemma_filter_exact(s: Seq<Stored>, f: spec_fn(Stored) -> bool, x: Stored)
    ensures
        s.filter(f).contains(x) <==> s.contains(x) && f(x),
    decreases s.len(),
{
    reveal_with_fuel(Seq::filter, 1);
    if s.len() > 0 {
        let d = s.drop_last();
        lemma_filter_exact(d, f, x);
        assert(s =~= d.push(s.last()));
        lemma_push_contains(d, s.last(), x);
        lemma_push_contains(d.filter(f), s.last(), x);
    }
}

/// Starting from `ids`, the set after inserting each of `more` in turn.
pub open spec fn inserted(start: Set<u64>, more: Seq<u64>) -> Set<u64>
    decreases more.len(),
{
    if more.len() == 0 {
        start
    } else {
        inserted(start, more.drop_last()).insert(more.last())
    }
}

/// After `N` successful inserts of distinct ids into an empty index (each
/// turns `ids()` into `ids().insert(id)`), `len()` (which is `ids().len()`)
/// is `N`.
pub proof fn lemma_len_after_distinct_inserts(more: Seq<u64>)
    requires
        more.no_duplicates(),
    ensures
        inserted(Set::empty(), more).len() == more.len(),
{
    lemma_inserted_is_set(more);
    more.unique_seq_to_set();
}

proof fn lemma_inserted_is_set(more: Seq<u64>)
    ensures
        inserted(Set::empty(), more) == more.to_set(),
    decreases more.len(),
{
    if more.len() > 0 {
        let d = more.drop_last();
        lemma_inserted_is_set(d);
        assert(more =~= d.push(more.last()));
        assert forall|k: u64| more.to_set().contains(k) <==> d.to_set().insert(more.last()).contains(
            k,
        ) by {
            if more.contains(k) {
                let i = more.index_of(k);
                if i < d.len() {
                    assert(d[i] == k);
                }
            }
            if d.contains(k) {
                let i = d.index_of(k);
                assert(more[i] == k);
            }
            if k == more.last() {
                assert(more[more.len() - 1] == k);
            }
        }
        assert(more.to_set() =~= d.to_set().insert(more.last()));
    } else {
        assert(more.to_set() =~= Set::<u64>::empty());
    }
}

/// Starting from the ids `start`, inserting each of `more` in turn gives
/// `start` together with `more`; an id that `more` does not hold is held
/// afterwards only if it was held before. With `start` the ids left after a
/// `remove`, this is the set of ids that a full scan yields.
pub proof fn lemma_ids_after_inserts(start: Set<u64>, more: Seq<u64>, k: u64)
    ensures
        inserted(start, more) == start.union(more.to_set()),
        !more.contains(k) ==> (inserted(start, more).contains(k) <==> start.contains(k)),
    decreases more.len(),
{
    if more.len() > 0 {
        let d = more.drop_last();
        lemma_ids_after_inserts(start, d, k);
        assert(more =~= d.push(more.last()));
        assert forall|x: u64| more.to_set().contains(x) <==> d.to_set().insert(more.last()).contains(x) by {
            if more.contains(x) {
                let i = more.index_of(x);
                if i < d.len() {
                    assert(d[i] == x);
                }
            }
            if d.contains(x) {
                let i = d.index_of(x);
                assert(more[i] == x);
            }
            if x == more.last() {
                assert(more[more.len() - 1] == x);
            }
        }
        assert(inserted(start, more) =~= start.union(more.to_set()));
    } else {
        assert(more.to_set() =~= Set::<u64>::empty());
        assert(start.union(more.to_set()) =~= start);
    }
}

/// An envelope search yields every row whose box meets the envelope, and no
/// other row.
pub proof fn lemma_envelope_hits_exact(es: Seq<Stored>, e: BBox, s: Stored)
    ensures
        envelope_hits(es, e).contains(s) <==> es.contains(s) && meets(s.bbox, e),
{
    lemma_filter_exact(es, |t: Stored| meets(t.bbox, e), s);
}

/// A distance search yields every point row whose distance is within the
/// bound, and no other row.
pub proof fn lemma_within_hits_exact(es: Seq<Stored>, ds: Seq<u64>, d: u64, s: Stored)
    requires
        ds.len() == es.len(),
    ensures
        within_hits(es, ds, d).contains(s) <==> exists|i: int|
            0 <= i < es.len() && es[i] == s && s.value is Point && double_le(ds[i], d),
{
    lemma_within_hits_exact_short(es, ds, d, s);
}

proof fn lemma_within_hits_exact_short(es: Seq<Stored>, ds: Seq<u64>, d: u64, s: Stored)
    requires
        es.len() <= ds.len(),
    ensures
        within_hits(es, ds, d).contains(s) <==> exists|i: int|
            0 <= i < es.len() && es[i] == s && s.value is Point && double_le(ds[i], d),
    decreases es.len(),
{
    if es.len() > 0 {
        let n = es.len() - 1;
        let front = es.drop_last();
        lemma_within_hits_exact_short(front, ds, d, s);
        let tail = if es[n].value is Point && double_le(ds[n], d) {
            seq![es[n]]
        } else {
            Seq::empty()
        };
        lemma_concat_contains(within_hits(front, ds, d), tail, s);
        if within_hits(es, ds, d).contains(s) {
            if within_hits(front, ds, d).contains(s) {
                let i = choose|i: int|
                    0 <= i < front.len() && front[i] == s && s.value is Point && double_le(ds[i], d);
                assert(es[i] == s);
            } else {
                assert(tail.contains(s));
                assert(tail[0] == s);
            }
        }
        if exists|i: int| 0 <= i < es.len() && es[i] == s && s.value is Point && double_le(ds[i], d) {
            let i = choose|i: int|
                0 <= i < es.len() && es[i] == s && s.value is Point && double_le(ds[i], d);
            if i < n {
                assert(front[i] == s);
            } else {
                assert(tail[0] == s);
            }
        }
    }
}

proof fn lemma_concat_contains(a: Seq<Stored>, b: Seq<Stored>, x: Stored)
    ensures
        (a + b).contains(x) <==> a.contains(x) || b.contains(x),
{
    if a.contains(x) {
        let i = a.index_of(x);
        assert((a + b)[i] == x);
    }
    if b.contains(x) {
        let i = b.index_of(x);
        assert((a + b)[a.len() + i] == x);
    }
    if (a + b).contains(x) {
        let i = (a + b).index_of(x);
        if i < a.len() {
            assert(a[i] == x);
        } else {
            assert(b[i - a.len()] == x);
        }
    }
}

/// Once a row id is no longer held, no search yields a row with it.
pub proof fn lemma_deleted_row_absent(es: Seq<Stored>, id: u64, e: BBox, ds: Seq<u64>, d: u64)
    requires
        forall|s: Stored| #[trigger] es.contains(s) ==> s.id != id,
        ds.len() == es.len(),
    ensures
        forall|s: Stored| #[trigger] envelope_hits(es, e).contains(s) ==> s.id != id,
        forall|s: Stored| #[trigger] within_hits(es, ds, d).contains(s) ==> s.id != id,
        forall|s: Stored| #[trigger] es.contains(s) ==> s.id != id,
{
    assert forall|s: Stored| #[trigger] envelope_hits(es, e).contains(s) implies s.id != id by {
        lemma_envelope_hits_exact(es, e, s);
    }
    assert forall|s: Stored| #[trigger] within_hits(es, ds, d).contains(s) implies s.id != id by {
        lemma_within_hits_exact(es, ds, d, s);
        if within_hits(es, ds, d).contains(s) {
            let i = choose|i: int|
                0 <= i < es.len() && es[i] == s && s.value is Point && double_le(ds[i], d);
            assert(es.contains(es[i]));
        }
    }
}

proof fn lemma_filter_step(s: Seq<Stored>, i: int, f: spec_fn(Stored) -> bool)
    requires
        0 <= i < s.len(),
    ensures
        s.subrange(0, i + 1).filter(f) == if f(s[i]) {
            s.subrange(0, i).filter(f).push(s[i])
        } else {
            s.subrange(0, i).filter(f)
        },
{
    let sub = s.subrange(0, i + 1);
    assert(sub.drop_last() =~= s.subrange(0, i));
    assert(sub.last() == s[i]);
    reveal_with_fuel(Seq::filter, 1);
}

} // verus!
