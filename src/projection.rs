//! Coordinate rewrite: every coordinate pair of a value is replaced by a
//! transformed pair, the structural bytes (endian, tags, counts) are kept,
//! and the SRID field is set to the target. The transform itself is supplied
//! by the caller as the list of new pairs, in walk order.
use vstd::prelude::*;
use crate::geob::{Geob, srid_of};
use crate::layout::{
    HEADER_LEN, blob_endian, body_of, coords_end, geometry_end, members_from, polygons_from,
    rings_end, rings_from,
};
use crate::scalar::{
    Endian, lemma_u32_bytes_len, lemma_u32_round_trip, push_u32, read_u32, read_u64, u32_at,
    u32_bytes, u64_at,
};
use crate::equality::shape_of;
use crate::rewrite::{append_rewritten, rw_geometry};

verus! {

/// Offsets of the pairs of the coordinate sequence at `pos`.
pub open spec fn seq_offsets(g: Seq<u8>, e: Endian, pos: int) -> Seq<int> {
    Seq::new(u32_at(g, e, pos), |k: int| pos + 4 + 16 * k)
}

/// Offsets of the pairs of `n` coordinate sequences from `pos` on.
pub open spec fn rings_offsets(g: Seq<u8>, e: Endian, pos: int, n: nat) -> Seq<int>
    decreases n,
{
    if n == 0 {
        Seq::empty()
    } else {
        match coords_end(g, e, pos) {
            Some(p) => seq_offsets(g, e, pos) + rings_offsets(g, e, p, (n - 1) as nat),
            None => Seq::empty(),
        }
    }
}

/// Offsets of the pairs of `n` polygon bodies from `pos` on.
pub open spec fn polygons_offsets(g: Seq<u8>, e: Endian, pos: int, n: nat) -> Seq<int>
    decreases n,
{
    if n == 0 {
        Seq::empty()
    } else {
        match rings_end(g, e, pos) {
            Some(p) => rings_offsets(g, e, pos + 4, u32_at(g, e, pos)) + polygons_offsets(
                g,
                e,
                p,
                (n - 1) as nat,
            ),
            None => Seq::empty(),
        }
    }
}

/// Offsets of the pairs of the tagged geometry at `pos`, in walk order.
pub open spec fn geometry_offsets(g: Seq<u8>, e: Endian, pos: int) -> Seq<int>
    decreases g.len() - pos, 0int,
{
    if 0 <= pos && pos < g.len() {
        let t = g[pos];
        if t == 1 {
            seq![pos + 1]
        } else if t == 2 || t == 4 {
            seq_offsets(g, e, pos + 1)
        } else if t == 3 || t == 5 {
            rings_offsets(g, e, pos + 5, u32_at(g, e, pos + 1))
        } else if t == 6 {
            polygons_offsets(g, e, pos + 5, u32_at(g, e, pos + 1))
        } else if t == 7 && pos + 5 <= g.len() {
            members_offsets(g, e, pos + 5, u32_at(g, e, pos + 1))
        } else {
            Seq::empty()
        }
    } else {
        Seq::empty()
    }
}

/// Offsets of the pairs of `n` tagged geometries from `pos` on.
pub open spec fn members_offsets(g: Seq<u8>, e: Endian, pos: int, n: nat) -> Seq<int>
    decreases g.len() - pos, 1int, n,
{
    if n == 0 {
        Seq::empty()
    } else if 0 <= pos && pos < g.len() {
        match geometry_end(g, e, pos) {
            Some(p) => if pos < p && p <= g.len() {
                geometry_offsets(g, e, pos) + members_offsets(g, e, p, (n - 1) as nat)
            } else {
                Seq::empty()
            },
            None => Seq::empty(),
        }
    } else {
        Seq::empty()
    }
}

/// The pair stored at offset `o`.
pub open spec fn pair_at(g: Seq<u8>, e: Endian, o: int) -> (u64, u64) {
    (u64_at(g, e, o) as u64, u64_at(g, e, o + 8) as u64)
}

/// Every coordinate pair of a blob, in walk order.
pub open spec fn coords_of(b: Seq<u8>) -> Seq<(u64, u64)> {
    geometry_offsets(body_of(b), blob_endian(b), 0).map_values(
        |o: int| pair_at(body_of(b), blob_endian(b), o),
    )
}

/// Why a rewrite was refused.
#[derive(Clone, Copy, Debug, PartialEq, Eq, Structural)]
pub enum ProjectError {
    /// The number of new pairs is not the number of pairs in the value.
    CountMismatch,
}

fn collect_seq(g: &[u8], e: Endian, pos: usize, out: &mut Vec<(u64, u64)>) -> (r: usize)
    requires
        coords_end(g@, e, pos as int) is Some,
    ensures
        final(out)@ == old(out)@ + seq_offsets(g@, e, pos as int).map_values(
            |o: int| pair_at(g@, e, o),
        ),
        coords_end(g@, e, pos as int) == Some(r as int),
{
    let len = g.len();
    let n = read_u32(g, pos, e);
    let mut i: u32 = 0;
    let ghost start = out@;
    let ghost offs = seq_offsets(g@, e, pos as int);
    while i < n
        invariant
            i <= n,
            len == g@.len(),
            n as nat == u32_at(g@, e, pos as int),
            pos + 4 + 16 * n <= g@.len(),
            offs == seq_offsets(g@, e, pos as int),
            out@ == start + offs.subrange(0, i as int).map_values(|o: int| pair_at(g@, e, o)),
        decreases n - i,
    {
        let p = pos + 4 + 16 * (i as usize);
        let x = read_u64(g, p, e);
        let y = read_u64(g, p + 8, e);
        out.push((x, y));
        proof {
            assert(offs[i as int] == p);
            assert(offs.subrange(0, i + 1).map_values(|o: int| pair_at(g@, e, o)) =~= offs.subrange(
                0,
                i as int,
            ).map_values(|o: int| pair_at(g@, e, o)).push(pair_at(g@, e, p as int)));
        }
        i = i + 1;
    }
    assert(offs.subrange(0, n as int) =~= offs);
    pos + 4 + 16 * (n as usize)
}

fn collect_rings(g: &[u8], e: Endian, pos: usize, n: u32, out: &mut Vec<(u64, u64)>) -> (r: usize)
    requires
        rings_from(g@, e, pos as int, n as nat) is Some,
    ensures
        final(out)@ == old(out)@ + rings_offsets(g@, e, pos as int, n as nat).map_values(
            |o: int| pair_at(g@, e, o),
        ),
        rings_from(g@, e, pos as int, n as nat) == Some(r as int),
{
    let mut p = pos;
    let mut i: u32 = 0;
    let ghost start = out@;
    let ghost f = |o: int| pair_at(g@, e, o);
    while i < n
        invariant
            i <= n,
            rings_from(g@, e, p as int, (n - i) as nat) == rings_from(g@, e, pos as int, n as nat),
            rings_from(g@, e, pos as int, n as nat) is Some,
            f == (|o: int| pair_at(g@, e, o)),
            out@ + rings_offsets(g@, e, p as int, (n - i) as nat).map_values(f) == start
                + rings_offsets(g@, e, pos as int, n as nat).map_values(f),
        decreases n - i,
    {
        let ghost before = out@;
        let q = collect_seq(g, e, p, out);
        proof {
            let a = seq_offsets(g@, e, p as int);
            let b = rings_offsets(g@, e, q as int, (n - i - 1) as nat);
            assert((a + b).map_values(f) =~= a.map_values(f) + b.map_values(f));
            assert(out@ + b.map_values(f) =~= before + (a + b).map_values(f));
        }
        p = q;
        i = i + 1;
    }
    assert(out@ =~= start + rings_offsets(g@, e, pos as int, n as nat).map_values(f));
    p
}

fn collect_polygons(g: &[u8], e: Endian, pos: usize, n: u32, out: &mut Vec<(u64, u64)>) -> (r:
    usize)
    requires
        polygons_from(g@, e, pos as int, n as nat) is Some,
    ensures
        final(out)@ == old(out)@ + polygons_offsets(g@, e, pos as int, n as nat).map_values(
            |o: int| pair_at(g@, e, o),
        ),
        polygons_from(g@, e, pos as int, n as nat) == Some(r as int),
{
    let mut p = pos;
    let mut i: u32 = 0;
    let ghost start = out@;
    let ghost f = |o: int| pair_at(g@, e, o);
    while i < n
        invariant
            i <= n,
            polygons_from(g@, e, p as int, (n - i) as nat) == polygons_from(
                g@,
                e,
                pos as int,
                n as nat,
            ),
            polygons_from(g@, e, pos as int, n as nat) is Some,
            f == (|o: int| pair_at(g@, e, o)),
            out@ + polygons_offsets(g@, e, p as int, (n - i) as nat).map_values(f) == start
                + polygons_offsets(g@, e, pos as int, n as nat).map_values(f),
        decreases n - i,
    {
        let ghost before = out@;
        let len = g.len();
        let k = read_u32(g, p, e);
        let q = collect_rings(g, e, p + 4, k, out);
        proof {
            let a = rings_offsets(g@, e, p + 4, k as nat);
            let b = polygons_offsets(g@, e, q as int, (n - i - 1) as nat);
            assert((a + b).map_values(f) =~= a.map_values(f) + b.map_values(f));
            assert(out@ + b.map_values(f) =~= before + (a + b).map_values(f));
        }
        p = q;
        i = i + 1;
    }
    assert(out@ =~= start + polygons_offsets(g@, e, pos as int, n as nat).map_values(f));
    p
}

fn collect_geometry(g: &[u8], e: Endian, pos: usize, out: &mut Vec<(u64, u64)>) -> (r: usize)
    requires
        geometry_end(g@, e, pos as int) is Some,
    ensures
        final(out)@ == old(out)@ + geometry_offsets(g@, e, pos as int).map_values(
            |o: int| pair_at(g@, e, o),
        ),
        geometry_end(g@, e, pos as int) == Some(r as int),
    decreases g@.len() - pos, 0int,
{
    let len = g.len();
    let t = g[pos];
    let ghost start = out@;
    if t == 1 {
        let x = read_u64(g, pos + 1, e);
        let y = read_u64(g, pos + 9, e);
        out.push((x, y));
        assert(out@ =~= start + geometry_offsets(g@, e, pos as int).map_values(
            |o: int| pair_at(g@, e, o),
        ));
        pos + 17
    } else if t == 2 || t == 4 {
        collect_seq(g, e, pos + 1, out)
    } else if t == 3 || t == 5 {
        let n = read_u32(g, pos + 1, e);
        collect_rings(g, e, pos + 5, n, out)
    } else if t == 6 {
        let n = read_u32(g, pos + 1, e);
        collect_polygons(g, e, pos + 5, n, out)
    } else {
        let n = read_u32(g, pos + 1, e);
        collect_members(g, e, pos + 5, n, out)
    }
}

fn collect_members(g: &[u8], e: Endian, pos: usize, n: u32, out: &mut Vec<(u64, u64)>) -> (r:
    usize)
    requires
        members_from(g@, e, pos as int, n as nat) is Some,
    ensures
        final(out)@ == old(out)@ + members_offsets(g@, e, pos as int, n as nat).map_values(
            |o: int| pair_at(g@, e, o),
        ),
        members_from(g@, e, pos as int, n as nat) == Some(r as int),
    decreases g@.len() - pos, 1int, n,
{
    let mut p = pos;
    let mut i: u32 = 0;
    let ghost start = out@;
    let ghost f = |o: int| pair_at(g@, e, o);
    while i < n
        invariant
            i <= n,
            pos <= p,
            members_from(g@, e, p as int, (n - i) as nat) == members_from(
                g@,
                e,
                pos as int,
                n as nat,
            ),
            members_from(g@, e, pos as int, n as nat) is Some,
            f == (|o: int| pair_at(g@, e, o)),
            out@ + members_offsets(g@, e, p as int, (n - i) as nat).map_values(f) == start
                + members_offsets(g@, e, pos as int, n as nat).map_values(f),
        decreases n - i,
    {
        let ghost before = out@;
        let q = collect_geometry(g, e, p, out);
        proof {
            let a = geometry_offsets(g@, e, p as int);
            let b = members_offsets(g@, e, q as int, (n - i - 1) as nat);
            assert((a + b).map_values(f) =~= a.map_values(f) + b.map_values(f));
            assert(out@ + b.map_values(f) =~= before + (a + b).map_values(f));
        }
        p = q;
        i = i + 1;
    }
    assert(out@ =~= start + members_offsets(g@, e, pos as int, n as nat).map_values(f));
    p
}

impl Geob {
    /// Every coordinate pair, in walk order, as bit patterns of doubles.
    pub fn coords(&self) -> (r: Vec<(u64, u64)>)
        requires
            self.wf(),
        ensures
            r@ == coords_of(self@),
    {
        let mut out: Vec<(u64, u64)> = Vec::new();
        let e = self.endian();
        let (_, body) = self.as_bytes().split_at(HEADER_LEN);
        collect_geometry(body, e, 0, &mut out);
        assert(out@ =~= coords_of(self@));
        out
    }

    /// Replaces the pairs, in walk order, by `pairs` and the SRID by `to`;
    /// the byte order, the type bytes and the counts stay where they are.
    /// On error nothing is changed.
    pub fn project_with(&mut self, to: u32, pairs: &Vec<(u64, u64)>) -> (r: Result<
        (),
        ProjectError,
    >)
        requires
            old(self).wf(),
        ensures
            final(self).wf(),
            r is Err <==> pairs@.len() != coords_of(old(self)@).len(),
            r is Err ==> r == Err::<(), ProjectError>(ProjectError::CountMismatch),
            r is Err ==> final(self)@ == old(self)@,
            r is Ok ==> {
                &&& srid_of(final(self)@) == to as nat
                &&& final(self)@.len() == old(self)@.len()
                &&& final(self)@[0] == old(self)@[0]
                &&& shape_of(final(self)@) == shape_of(old(self)@)
                &&& geometry_offsets(body_of(final(self)@), blob_endian(final(self)@), 0)
                    == geometry_offsets(body_of(old(self)@), blob_endian(old(self)@), 0)
                &&& coords_of(final(self)@) == pairs@
            },
    {
        let current = self.coords();
        if current.len() != pairs.len() {
            return Err(ProjectError::CountMismatch);
        }
        let e = self.endian();
        let bytes = self.as_bytes();
        let (_, body) = bytes.split_at(HEADER_LEN);
        let mut out: Vec<u8> = Vec::new();
        out.push(bytes[0]);
        push_u32(&mut out, to, e);
        let ghost head = out@;
        append_rewritten(body, e, pairs, &mut out);
        proof {
            let w = rw_geometry(body@, e, 0, pairs@, 0);
            lemma_u32_bytes_len(to, e);
            assert(out@ =~= seq![bytes@[0]] + u32_bytes(to, e) + w);
            assert(body_of(out@) =~= w);
            lemma_u32_round_trip(seq![bytes@[0]], to, e, w);
            assert(coords_of(out@) =~= pairs@);
        }
        *self = Geob::new(out);
        Ok(())
    }

    /// A copy whose pairs are `pairs` and whose SRID is `to`; where `to` is
    /// already the SRID, an unchanged copy.
    pub fn project_into(&self, to: u32, pairs: &Vec<(u64, u64)>) -> (r: Result<
        Geob,
        ProjectError,
    >)
        requires
            self.wf(),
        ensures
            to as nat == srid_of(self@) ==> (r matches Ok(g) && g@ == self@),
            to as nat != srid_of(self@) ==> (r is Err <==> pairs@.len() != coords_of(
                self@,
            ).len()),
            r matches Ok(g) ==> {
                &&& g.wf()
                &&& srid_of(g@) == to as nat
                &&& g@.len() == self@.len()
                &&& g@[0] == self@[0]
                &&& shape_of(g@) == shape_of(self@)
            },
            to as nat != srid_of(self@) ==> (r matches Ok(g) ==> coords_of(g@) == pairs@
                && geometry_offsets(body_of(g@), blob_endian(g@), 0) == geometry_offsets(
                body_of(self@),
                blob_endian(self@),
                0,
            )),
    {
        if self.srid() == to {
            return Ok(self.duplicate());
        }
        let mut next = self.duplicate();
        match next.project_with(to, pairs) {
            Ok(()) => Ok(next),
            Err(e) => Err(e),
        }
    }
}

pub(crate) fn same_pairs(a: &Vec<(u64, u64)>, b: &Vec<(u64, u64)>) -> (r: bool)
    ensures
        r == (a@ == b@),
{
    if a.len() != b.len() {
        return false;
    }
    let mut i: usize = 0;
    while i < a.len()
        invariant
            a@.len() == b@.len(),
            i <= a@.len(),
            forall|k: int| 0 <= k < i ==> a@[k] == b@[k],
        decreases a@.len() - i,
    {
        if a[i].0 != b[i].0 || a[i].1 != b[i].1 {
            return false;
        }
        i = i + 1;
    }
    assert(a@ =~= b@);
    true
}

} // verus!
