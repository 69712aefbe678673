//! Value equality: two values are equal when their SRIDs match, their
//! geometries have the same kinds and counts in the same places, and their
//! coordinates compare equal as doubles (IEEE 754 `==`). The byte orders of
//! the two blobs play no part.
use vstd::prelude::*;
use crate::geob::{Geob, srid_of};
use crate::layout::{
    HEADER_LEN, blob_endian, body_of, coords_end, coords_end_exec, geometry_end,
    members_from, polygons_from, rings_end, rings_from,
    validate, well_formed,
};
use crate::projection::coords_of;
use crate::scalar::{Endian, read_u32, u32_at};
use crate::tree::{is_nan, is_zero};

verus! {

/// IEEE 754 `a == b` on the doubles with bit patterns `a` and `b`.
pub open spec fn double_eq(a: u64, b: u64) -> bool {
    !is_nan(a) && !is_nan(b) && (a == b || (is_zero(a) && is_zero(b)))
}

/// IEEE 754 `==` on bit patterns.
pub fn eq_double(a: u64, b: u64) -> (r: bool)
    ensures
        r == double_eq(a, b),
{
    let nan_a = (a >> 52u64) & 0x7ffu64 == 0x7ffu64 && a & 0xf_ffff_ffff_ffffu64 != 0;
    let nan_b = (b >> 52u64) & 0x7ffu64 == 0x7ffu64 && b & 0xf_ffff_ffff_ffffu64 != 0;
    !nan_a && !nan_b && (a == b || (a & 0x7fff_ffff_ffff_ffffu64 == 0 && b
        & 0x7fff_ffff_ffff_ffffu64 == 0))
}

/// The counts of `n` coordinate sequences from `pos` on.
pub open spec fn rings_shape(g: Seq<u8>, e: Endian, pos: int, n: nat) -> Seq<u32>
    decreases n,
{
    if n == 0 {
        Seq::empty()
    } else {
        match coords_end(g, e, pos) {
            Some(p) => seq![u32_at(g, e, pos) as u32] + rings_shape(g, e, p, (n - 1) as nat),
            None => Seq::empty(),
        }
    }
}

/// The ring count and ring counts of `n` polygon bodies from `pos` on.
pub open spec fn polygons_shape(g: Seq<u8>, e: Endian, pos: int, n: nat) -> Seq<u32>
    decreases n,
{
    if n == 0 {
        Seq::empty()
    } else {
        match rings_end(g, e, pos) {
            Some(p) => seq![u32_at(g, e, pos) as u32] + rings_shape(
                g,
                e,
                pos + 4,
                u32_at(g, e, pos),
            ) + polygons_shape(g, e, p, (n - 1) as nat),
            None => Seq::empty(),
        }
    }
}

/// Kinds and counts of the tagged geometry at `pos`, in walk order.
pub open spec fn geometry_shape(g: Seq<u8>, e: Endian, pos: int) -> Seq<u32>
    decreases g.len() - pos, 0int,
{
    if 0 <= pos && pos < g.len() {
        let t = g[pos];
        if t == 1 {
            seq![1u32]
        } else if t == 2 || t == 4 {
            seq![t as u32, u32_at(g, e, pos + 1) as u32]
        } else if t == 3 || t == 5 {
            seq![t as u32, u32_at(g, e, pos + 1) as u32] + rings_shape(
                g,
                e,
                pos + 5,
                u32_at(g, e, pos + 1),
            )
        } else if t == 6 {
            seq![6u32, u32_at(g, e, pos + 1) as u32] + polygons_shape(
                g,
                e,
                pos + 5,
                u32_at(g, e, pos + 1),
            )
        } else if t == 7 && pos + 5 <= g.len() {
            seq![7u32, u32_at(g, e, pos + 1) as u32] + members_shape(
                g,
                e,
                pos + 5,
                u32_at(g, e, pos + 1),
            )
        } else {
            Seq::empty()
        }
    } else {
        Seq::empty()
    }
}

/// Kinds and counts of `n` tagged geometries from `pos` on.
pub open spec fn members_shape(g: Seq<u8>, e: Endian, pos: int, n: nat) -> Seq<u32>
    decreases g.len() - pos, 1int, n,
{
    if n == 0 {
        Seq::empty()
    } else if 0 <= pos && pos < g.len() {
        match geometry_end(g, e, pos) {
            Some(p) => if pos < p && p <= g.len() {
                geometry_shape(g, e, pos) + members_shape(g, e, p, (n - 1) as nat)
            } else {
                Seq::empty()
            },
            None => Seq::empty(),
        }
    } else {
        Seq::empty()
    }
}

/// Kinds and counts of a blob's geometry, whatever its byte order.
pub open spec fn shape_of(b: Seq<u8>) -> Seq<u32> {
    geometry_shape(body_of(b), blob_endian(b), 0)
}

/// The two blobs hold the same value.
pub open spec fn same_value(a: Seq<u8>, b: Seq<u8>) -> bool {
    &&& srid_of(a) == srid_of(b)
    &&& shape_of(a) == shape_of(b)
    &&& coords_of(a).len() == coords_of(b).len()
    &&& forall|k: int|
        0 <= k < coords_of(a).len() ==> double_eq(#[trigger] coords_of(a)[k].0, coords_of(b)[k].0)
            && double_eq(coords_of(a)[k].1, coords_of(b)[k].1)
}

fn shape_rings(g: &[u8], e: Endian, pos: usize, n: u32, out: &mut Vec<u32>) -> (r: usize)
    requires
        rings_from(g@, e, pos as int, n as nat) is Some,
    ensures
        final(out)@ == old(out)@ + rings_shape(g@, e, pos as int, n as nat),
        rings_from(g@, e, pos as int, n as nat) == Some(r as int),
{
    let mut p = pos;
    let mut i: u32 = 0;
    let ghost start = out@;
    while i < n
        invariant
            i <= n,
            rings_from(g@, e, p as int, (n - i) as nat) == rings_from(g@, e, pos as int, n as nat),
            rings_from(g@, e, pos as int, n as nat) is Some,
            out@ + rings_shape(g@, e, p as int, (n - i) as nat) == start + rings_shape(
                g@,
                e,
                pos as int,
                n as nat,
            ),
        decreases n - i,
    {
        let ghost before = out@;
        let c = read_u32(g, p, e);
        out.push(c);
        let q = match coords_end_exec(g, e, p) {
            Some(q) => q,
            None => {
                return p;
            },
        };
        proof {
            assert(out@ + rings_shape(g@, e, q as int, (n - i - 1) as nat) =~= before
                + rings_shape(g@, e, p as int, (n - i) as nat));
        }
        p = q;
        i = i + 1;
    }
    assert(out@ =~= start + rings_shape(g@, e, pos as int, n as nat));
    p
}

fn shape_polygons(g: &[u8], e: Endian, pos: usize, n: u32, out: &mut Vec<u32>) -> (r: usize)
    requires
        polygons_from(g@, e, pos as int, n as nat) is Some,
    ensures
        final(out)@ == old(out)@ + polygons_shape(g@, e, pos as int, n as nat),
        polygons_from(g@, e, pos as int, n as nat) == Some(r as int),
{
    let mut p = pos;
    let mut i: u32 = 0;
    let ghost start = out@;
    while i < n
        invariant
            i <= n,
            polygons_from(g@, e, p as int, (n - i) as nat) == polygons_from(
                g@,
                e,
                pos as int,
                n as nat,
            ),
            polygons_from(g@, e, pos as int, n as nat) is Some,
            out@ + polygons_shape(g@, e, p as int, (n - i) as nat) == start + polygons_shape(
                g@,
                e,
                pos as int,
                n as nat,
            ),
        decreases n - i,
    {
        let ghost before = out@;
        let len = g.len();
        let c = read_u32(g, p, e);
        out.push(c);
        let q = shape_rings(g, e, p + 4, c, out);
        proof {
            assert(out@ + polygons_shape(g@, e, q as int, (n - i - 1) as nat) =~= before
                + polygons_shape(g@, e, p as int, (n - i) as nat));
        }
        p = q;
        i = i + 1;
    }
    assert(out@ =~= start + polygons_shape(g@, e, pos as int, n as nat));
    p
}

fn shape_geometry(g: &[u8], e: Endian, pos: usize, out: &mut Vec<u32>) -> (r: usize)
    requires
        geometry_end(g@, e, pos as int) is Some,
    ensures
        final(out)@ == old(out)@ + geometry_shape(g@, e, pos as int),
        geometry_end(g@, e, pos as int) == Some(r as int),
    decreases g@.len() - pos, 0int,
{
    let len = g.len();
    let t = g[pos];
    let ghost start = out@;
    out.push(t as u32);
    if t == 1 {
        assert(out@ =~= start + geometry_shape(g@, e, pos as int));
        return pos + 17;
    }
    let n = read_u32(g, pos + 1, e);
    out.push(n);
    if t == 2 || t == 4 {
        assert(out@ =~= start + geometry_shape(g@, e, pos as int));
        match coords_end_exec(g, e, pos + 1) {
            Some(q) => q,
            None => pos,
        }
    } else if t == 3 || t == 5 {
        let q = shape_rings(g, e, pos + 5, n, out);
        assert(out@ =~= start + geometry_shape(g@, e, pos as int));
        q
    } else if t == 6 {
        let q = shape_polygons(g, e, pos + 5, n, out);
        assert(out@ =~= start + geometry_shape(g@, e, pos as int));
        q
    } else {
        let q = shape_members(g, e, pos + 5, n, out);
        assert(out@ =~= start + geometry_shape(g@, e, pos as int));
        q
    }
}

fn shape_members(g: &[u8], e: Endian, pos: usize, n: u32, out: &mut Vec<u32>) -> (r: usize)
    requires
        members_from(g@, e, pos as int, n as nat) is Some,
    ensures
        final(out)@ == old(out)@ + members_shape(g@, e, pos as int, n as nat),
        members_from(g@, e, pos as int, n as nat) == Some(r as int),
    decreases g@.len() - pos, 1int, n,
{
    let mut p = pos;
    let mut i: u32 = 0;
    let ghost start = out@;
    while i < n
        invariant
            i <= n,
            pos <= p,
            members_from(g@, e, p as int, (n - i) as nat) == members_from(
                g@,
                e,
                pos as int,
                n as nat,
            ),
            members_from(g@, e, pos as int, n as nat) is Some,
            out@ + members_shape(g@, e, p as int, (n - i) as nat) == start + members_shape(
                g@,
                e,
                pos as int,
                n as nat,
            ),
        decreases n - i,
    {
        let ghost before = out@;
        let q = shape_geometry(g, e, p, out);
        proof {
            assert(out@ + members_shape(g@, e, q as int, (n - i - 1) as nat) =~= before
                + members_shape(g@, e, p as int, (n - i) as nat));
        }
        p = q;
        i = i + 1;
    }
    assert(out@ =~= start + members_shape(g@, e, pos as int, n as nat));
    p
}

pub(crate) fn same_counts(a: &Vec<u32>, b: &Vec<u32>) -> (r: bool)
    ensures
        r == (a@ == b@),
{
    if a.len() != b.len() {
        return false;
    }
    let mut i: usize = 0;
    while i < a.len()
        invariant
            a@.len() == b@.len(),
            i <= a@.len(),
            forall|k: int| 0 <= k < i ==> a@[k] == b@[k],
        decreases a@.len() - i,
    {
        if a[i] != b[i] {
            return false;
        }
        i = i + 1;
    }
    assert(a@ =~= b@);
    true
}

impl Geob {
    /// Kinds and counts of the geometry, in walk order.
    pub fn shape(&self) -> (r: Vec<u32>)
        requires
            self.wf(),
        ensures
            r@ == shape_of(self@),
    {
        let mut out: Vec<u32> = Vec::new();
        let e = self.endian();
        let (_, body) = self.as_bytes().split_at(HEADER_LEN);
        shape_geometry(body, e, 0, &mut out);
        assert(out@ =~= shape_of(self@));
        out
    }

    /// Whether the two values are equal: same SRID, same kinds and counts,
    /// and coordinates equal as doubles, whatever the byte orders.
    pub fn same_as(&self, other: &Geob) -> (r: bool)
        requires
            self.wf(),
            other.wf(),
        ensures
            r == same_value(self@, other@),
    {
        if self.srid() != other.srid() {
            return false;
        }
        let sa = self.shape();
        let sb = other.shape();
        if !same_counts(&sa, &sb) {
            return false;
        }
        let a = self.coords();
        let b = other.coords();
        if a.len() != b.len() {
            return false;
        }
        let mut k: usize = 0;
        while k < a.len()
            invariant
                a@ == coords_of(self@),
                b@ == coords_of(other@),
                a@.len() == b@.len(),
                k <= a@.len(),
                forall|j: int|
                    0 <= j < k ==> double_eq(#[trigger] coords_of(self@)[j].0, coords_of(other@)[j].0)
                        && double_eq(coords_of(self@)[j].1, coords_of(other@)[j].1),
            decreases a@.len() - k,
        {
            let x = a[k];
            let y = b[k];
            assert(x == coords_of(self@)[k as int] && y == coords_of(other@)[k as int]);
            if !eq_double(x.0, y.0) || !eq_double(x.1, y.1) {
                assert(!(double_eq(coords_of(self@)[k as int].0, coords_of(other@)[k as int].0)
                    && double_eq(coords_of(self@)[k as int].1, coords_of(other@)[k as int].1)));
                assert(!same_value(self@, other@));
                return false;
            }
            k = k + 1;
        }
        assert(same_value(self@, other@));
        true
    }
}

/// Values compare by `same_value` where both blobs are well formed (every
/// constructor gives such blobs), and by their bytes otherwise.
pub open spec fn geob_eq(a: Seq<u8>, b: Seq<u8>) -> bool {
    if well_formed(a) && well_formed(b) {
        same_value(a, b)
    } else {
        a == b
    }
}

fn same_bytes(a: &[u8], b: &[u8]) -> (r: bool)
    ensures
        r == (a@ == b@),
{
    if a.len() != b.len() {
        return false;
    }
    let mut i: usize = 0;
    while i < a.len()
        invariant
            a@.len() == b@.len(),
            i <= a@.len(),
            forall|k: int| 0 <= k < i ==> a@[k] == b@[k],
        decreases a@.len() - i,
    {
        if a[i] != b[i] {
            return false;
        }
        i = i + 1;
    }
    assert(a@ =~= b@);
    true
}

impl PartialEq for Geob {
    fn eq(&self, other: &Geob) -> (r: bool) {
        if validate(self.as_bytes()) && validate(other.as_bytes()) {
            self.same_as(other)
        } else {
            same_bytes(self.as_bytes(), other.as_bytes())
        }
    }
}

impl vstd::std_specs::cmp::PartialEqSpecImpl for Geob {
    open spec fn obeys_eq_spec() -> bool {
        true
    }

    open spec fn eq_spec(&self, other: &Geob) -> bool {
        geob_eq(self@, other@)
    }
}

} // verus!
