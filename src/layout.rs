//! The binary layout of a geometry blob and its validation.
//!
//! ```text
//! blob       := endian:u8 srid:u32 geometry
//! geometry   := type:u8 body
//! Point      := x:f64 y:f64
//! LineString := n:u32 Point*n          (MultiPoint has the same body)
//! Polygon    := n:u32 LineString*n     (MultiLineString has the same body)
//! MultiPoly  := n:u32 Polygon*n
//! Collection := n:u32 geometry*n       (children carry a type byte, no header)
//! ```
//! Every `*_end` function gives the offset just past a well-formed element
//! that starts at `pos`, or `None` where the bytes there do not form one.
use vstd::prelude::*;
use crate::scalar::{Endian, endian_of, u32_at, read_u32, endian_from_byte};

verus! {

/// Length of the endian marker and the SRID that open every blob.
pub const HEADER_LEN: usize = 5;

/// Length of one coordinate pair.
pub const COORD_LEN: usize = 16;

/// `Some(p as int)` for `Some(p)`.
pub open spec fn as_int(r: Option<usize>) -> Option<int> {
    match r {
        Some(p) => Some(p as int),
        None => None,
    }
}

/// A count followed by that many coordinate pairs.
pub open spec fn coords_end(b: Seq<u8>, e: Endian, pos: int) -> Option<int> {
    if 0 <= pos && pos + 4 <= b.len() && pos + 4 + 16 * u32_at(b, e, pos) <= b.len() {
        Some(pos + 4 + 16 * u32_at(b, e, pos))
    } else {
        None
    }
}

/// `n` coordinate sequences one after the other.
pub open spec fn rings_from(b: Seq<u8>, e: Endian, pos: int, n: nat) -> Option<int>
    decreases n,
{
    if n == 0 {
        if 0 <= pos && pos <= b.len() {
            Some(pos)
        } else {
            None
        }
    } else {
        match coords_end(b, e, pos) {
            Some(p) => rings_from(b, e, p, (n - 1) as nat),
            None => None,
        }
    }
}

/// A count followed by that many coordinate sequences.
pub open spec fn rings_end(b: Seq<u8>, e: Endian, pos: int) -> Option<int> {
    if 0 <= pos && pos + 4 <= b.len() {
        rings_from(b, e, pos + 4, u32_at(b, e, pos))
    } else {
        None
    }
}

/// `n` polygon bodies one after the other.
pub open spec fn polygons_from(b: Seq<u8>, e: Endian, pos: int, n: nat) -> Option<int>
    decreases n,
{
    if n == 0 {
        if 0 <= pos && pos <= b.len() {
            Some(pos)
        } else {
            None
        }
    } else {
        match rings_end(b, e, pos) {
            Some(p) => polygons_from(b, e, p, (n - 1) as nat),
            None => None,
        }
    }
}

/// A count followed by that many polygon bodies.
pub open spec fn polygons_end(b: Seq<u8>, e: Endian, pos: int) -> Option<int> {
    if 0 <= pos && pos + 4 <= b.len() {
        polygons_from(b, e, pos + 4, u32_at(b, e, pos))
    } else {
        None
    }
}

/// A type byte followed by the body that the type calls for.
pub open spec fn geometry_end(b: Seq<u8>, e: Endian, pos: int) -> Option<int>
    decreases b.len() - pos, 0int,
{
    if 0 <= pos && pos < b.len() {
        let t = b[pos];
        if t == 1 {
            if pos + 17 <= b.len() {
                Some(pos + 17)
            } else {
                None
            }
        } else if t == 2 || t == 4 {
            coords_end(b, e, pos + 1)
        } else if t == 3 || t == 5 {
            rings_end(b, e, pos + 1)
        } else if t == 6 {
            polygons_end(b, e, pos + 1)
        } else if t == 7 {
            if pos + 5 <= b.len() {
                members_from(b, e, pos + 5, u32_at(b, e, pos + 1))
            } else {
                None
            }
        } else {
            None
        }
    } else {
        None
    }
}

/// `n` tagged geometries one after the other.
pub open spec fn members_from(b: Seq<u8>, e: Endian, pos: int, n: nat) -> Option<int>
    decreases b.len() - pos, 1int, n,
{
    if n == 0 {
        if 0 <= pos && pos <= b.len() {
            Some(pos)
        } else {
            None
        }
    } else if 0 <= pos && pos < b.len() {
        match geometry_end(b, e, pos) {
            Some(p) => if pos < p && p <= b.len() {
                members_from(b, e, p, (n - 1) as nat)
            } else {
                None
            },
            None => None,
        }
    } else {
        None
    }
}

/// The byte order that a blob announces.
pub open spec fn blob_endian(b: Seq<u8>) -> Endian {
    if b[0] == 0 {
        Endian::Big
    } else {
        Endian::Little
    }
}

/// The header is present and announces a byte order.
pub open spec fn header_ok(b: Seq<u8>) -> bool {
    b.len() >= HEADER_LEN && endian_of(b[0]) is Some
}

/// The bytes after the header.
pub open spec fn body_of(b: Seq<u8>) -> Seq<u8> {
    b.subrange(HEADER_LEN as int, b.len() as int)
}

/// Exactly one geometry, with nothing after it.
pub open spec fn body_ok(g: Seq<u8>, e: Endian) -> bool {
    geometry_end(g, e, 0) == Some(g.len() as int)
}

/// A whole blob: header, one geometry, and nothing after it.
pub open spec fn well_formed(b: Seq<u8>) -> bool {
    header_ok(b) && body_ok(body_of(b), blob_endian(b))
}

/// Why a blob was refused, and at which byte.
#[derive(Clone, Copy, Debug, PartialEq, Eq, Structural)]
pub enum FormatError {
    /// The header is cut short (at the end of the bytes) or its first byte is
    /// neither `0` nor `1` (at byte `0`).
    Header(usize),
    /// The bytes after the header are not exactly one geometry: at the first
    /// byte after the geometry where bytes trail it, or at the start of the
    /// geometry where it cannot be read.
    Body(usize),
}

/// Where a body that is not exactly one geometry goes wrong, counted from
/// `base`, the offset of the body.
pub open spec fn body_error_at(g: Seq<u8>, e: Endian, base: int) -> int {
    match geometry_end(g, e, 0) {
        Some(q) => base + q,
        None => base,
    }
}

/// What validating a blob gives.
pub open spec fn check_spec(b: Seq<u8>) -> Result<(), FormatError> {
    if b.len() < HEADER_LEN {
        Err(FormatError::Header(b.len() as usize))
    } else if !header_ok(b) {
        Err(FormatError::Header(0))
    } else if !well_formed(b) {
        Err(FormatError::Body(body_error_at(body_of(b), blob_endian(b), HEADER_LEN as int) as usize))
    } else {
        Ok(())
    }
}

pub fn coords_end_exec(b: &[u8], e: Endian, pos: usize) -> (r: Option<usize>)
    ensures
        as_int(r) == coords_end(b@, e, pos as int),
{
    let len = b.len();
    if pos > len || len - pos < 4 {
        return None;
    }
    let n = read_u32(b, pos, e) as u64;
    let room = (len - pos - 4) as u64;
    if n * 16 <= room {
        Some(pos + 4 + (n * 16) as usize)
    } else {
        None
    }
}

fn rings_from_exec(b: &[u8], e: Endian, pos: usize, n: u32) -> (r: Option<usize>)
    ensures
        as_int(r) == rings_from(b@, e, pos as int, n as nat),
{
    let mut p = pos;
    let mut i: u32 = 0;
    if p > b.len() {
        return None;
    }
    while i < n
        invariant
            i <= n,
            p <= b@.len(),
            rings_from(b@, e, pos as int, n as nat) == rings_from(b@, e, p as int, (n - i) as nat),
        decreases n - i,
    {
        match coords_end_exec(b, e, p) {
            Some(q) => {
                p = q;
            },
            None => {
                return None;
            },
        }
        i = i + 1;
    }
    Some(p)
}

pub fn rings_end_exec(b: &[u8], e: Endian, pos: usize) -> (r: Option<usize>)
    ensures
        as_int(r) == rings_end(b@, e, pos as int),
{
    let len = b.len();
    if pos > len || len - pos < 4 {
        return None;
    }
    let n = read_u32(b, pos, e);
    rings_from_exec(b, e, pos + 4, n)
}

pub proof fn lemma_rings_from_bound(b: Seq<u8>, e: Endian, pos: int, n: nat)
    ensures
        rings_from(b, e, pos, n) matches Some(q) ==> pos <= q <= b.len(),
    decreases n,
{
    if n > 0 {
        if let Some(p) = coords_end(b, e, pos) {
            lemma_rings_from_bound(b, e, p, (n - 1) as nat);
        }
    }
}

fn polygons_from_exec(b: &[u8], e: Endian, pos: usize, n: u32) -> (r: Option<usize>)
    ensures
        as_int(r) == polygons_from(b@, e, pos as int, n as nat),
{
    let mut p = pos;
    let mut i: u32 = 0;
    if p > b.len() {
        return None;
    }
    while i < n
        invariant
            i <= n,
            p <= b@.len(),
            polygons_from(b@, e, pos as int, n as nat) == polygons_from(
                b@,
                e,
                p as int,
                (n - i) as nat,
            ),
        decreases n - i,
    {
        proof {
            if p + 4 <= b@.len() {
                lemma_rings_from_bound(b@, e, p + 4, u32_at(b@, e, p as int));
            }
        }
        match rings_end_exec(b, e, p) {
            Some(q) => {
                p = q;
            },
            None => {
                return None;
            },
        }
        i = i + 1;
    }
    Some(p)
}

pub fn polygons_end_exec(b: &[u8], e: Endian, pos: usize) -> (r: Option<usize>)
    ensures
        as_int(r) == polygons_end(b@, e, pos as int),
{
    let len = b.len();
    if pos > len || len - pos < 4 {
        return None;
    }
    let n = read_u32(b, pos, e);
    polygons_from_exec(b, e, pos + 4, n)
}

pub fn geometry_end_exec(b: &[u8], e: Endian, pos: usize) -> (r: Option<usize>)
    ensures
        as_int(r) == geometry_end(b@, e, pos as int),
    decreases b@.len() - pos, 0int,
{
    let len = b.len();
    if pos >= len {
        return None;
    }
    let t = b[pos];
    if t == 1 {
        if len - pos >= 17 {
            Some(pos + 17)
        } else {
            None
        }
    } else if t == 2 || t == 4 {
        coords_end_exec(b, e, pos + 1)
    } else if t == 3 || t == 5 {
        rings_end_exec(b, e, pos + 1)
    } else if t == 6 {
        polygons_end_exec(b, e, pos + 1)
    } else if t == 7 {
        if len - pos >= 5 {
            let n = read_u32(b, pos + 1, e);
            members_from_exec(b, e, pos + 5, n)
        } else {
            None
        }
    } else {
        None
    }
}

fn members_from_exec(b: &[u8], e: Endian, pos: usize, n: u32) -> (r: Option<usize>)
    ensures
        as_int(r) == members_from(b@, e, pos as int, n as nat),
    decreases b@.len() - pos, 1int, n,
{
    if n == 0 {
        if pos <= b.len() {
            return Some(pos);
        } else {
            return None;
        }
    }
    if pos >= b.len() {
        return None;
    }
    match geometry_end_exec(b, e, pos) {
        Some(p) => {
            if pos < p && p <= b.len() {
                members_from_exec(b, e, p, n - 1)
            } else {
                None
            }
        },
        None => None,
    }
}

/// A well-formed blob passes the check, so `Geob::from_bytes` adopts it as
/// it is and `as_bytes` hands the same bytes back.
pub proof fn lemma_well_formed_passes(b: Seq<u8>)
    requires
        well_formed(b),
    ensures
        check_spec(b) == Ok::<(), FormatError>(()),
{
}

/// Checks that `bytes` is exactly one well-formed blob.
pub fn check(bytes: &[u8]) -> (r: Result<(), FormatError>)
    ensures
        r == check_spec(bytes@),
{
    if bytes.len() < HEADER_LEN {
        return Err(FormatError::Header(bytes.len()));
    }
    let e = match endian_from_byte(bytes[0]) {
        Some(e) => e,
        None => {
            return Err(FormatError::Header(0));
        },
    };
    let (_, body) = bytes.split_at(HEADER_LEN);
    match geometry_end_exec(body, e, 0) {
        Some(p) => {
            proof {
                crate::rewrite::lemma_geometry_end_bound(body@, e, 0);
            }
            if p == body.len() {
                Ok(())
            } else {
                Err(FormatError::Body(HEADER_LEN + p))
            }
        },
        None => Err(FormatError::Body(HEADER_LEN)),
    }
}

/// Whether `bytes` is exactly one well-formed blob. Never panics, on any input.
pub fn validate(bytes: &[u8]) -> (r: bool)
    ensures
        r == well_formed(bytes@),
{
    check(bytes).is_ok()
}

} // verus!
