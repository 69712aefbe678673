//! The WKT printer: `SRID=<n>;<TYPE>(...)`, coordinates separated by `", "`,
//! rings and polygons nested in parentheses.
use vstd::prelude::*;
use vstd::string::*;
use byteorder::ByteOrder;
use crate::layout::{
    HEADER_LEN, blob_endian, body_of, coords_end, geometry_end, members_from,
    polygons_end, polygons_from, rings_end, rings_from, };
use crate::scalar::{Endian, read_u32, read_u64, u32_at, u64_at};
use crate::geob::{Geob, srid_of};

verus! {

/// The text that the standard formatting of doubles gives for the double
/// with bit pattern `bits`.
pub uninterp spec fn number_text(bits: u64) -> Seq<char>;

/// Relies on byteorder's `LittleEndian::read_f64` to read the bit pattern as a
/// double, and on the standard `Display` of doubles to print it.
#[verifier::external_body]
fn format_number(bits: u64) -> (r: String)
    ensures
        r@ == number_text(bits),
{
    let mut buf = [0u8; 8];
    byteorder::LittleEndian::write_u64(&mut buf, bits);
    format!("{}", byteorder::LittleEndian::read_f64(&buf))
}

pub open spec fn digit_char(d: nat) -> char {
    if d == 0 {
        '0'
    } else if d == 1 {
        '1'
    } else if d == 2 {
        '2'
    } else if d == 3 {
        '3'
    } else if d == 4 {
        '4'
    } else if d == 5 {
        '5'
    } else if d == 6 {
        '6'
    } else if d == 7 {
        '7'
    } else if d == 8 {
        '8'
    } else {
        '9'
    }
}

/// Decimal digits of `n`, without leading zeros.
pub open spec fn decimal_text(n: nat) -> Seq<char>
    decreases n,
{
    if n < 10 {
        seq![digit_char(n)]
    } else {
        decimal_text(n / 10) + seq![digit_char(n % 10)]
    }
}

/// `""` before the first element of a list, `", "` before the others.
pub open spec fn sep(first: bool) -> Seq<char> {
    if first {
        Seq::empty()
    } else {
        ", "@
    }
}

/// `x y` of the coordinate pair at `pos`.
pub open spec fn coord_text(g: Seq<u8>, e: Endian, pos: int) -> Seq<char> {
    number_text(u64_at(g, e, pos) as u64) + " "@ + number_text(u64_at(g, e, pos + 8) as u64)
}

/// `n` coordinate pairs from `pos` on, separated by `", "`.
pub open spec fn coord_list(g: Seq<u8>, e: Endian, pos: int, n: nat, first: bool) -> Seq<char>
    decreases n,
{
    if n == 0 {
        Seq::empty()
    } else {
        sep(first) + coord_text(g, e, pos) + coord_list(g, e, pos + 16, (n - 1) as nat, false)
    }
}

/// The pairs of the coordinate sequence at `pos`, without parentheses.
pub open spec fn seq_text(g: Seq<u8>, e: Endian, pos: int) -> Seq<char> {
    coord_list(g, e, pos + 4, u32_at(g, e, pos), true)
}

/// `n` coordinate sequences from `pos` on, each in parentheses.
pub open spec fn ring_list(g: Seq<u8>, e: Endian, pos: int, n: nat, first: bool) -> Seq<char>
    decreases n,
{
    if n == 0 {
        Seq::empty()
    } else {
        match coords_end(g, e, pos) {
            Some(p) => sep(first) + "("@ + seq_text(g, e, pos) + ")"@ + ring_list(
                g,
                e,
                p,
                (n - 1) as nat,
                false,
            ),
            None => Seq::empty(),
        }
    }
}

/// The rings of the polygon body at `pos`, without the outer parentheses.
pub open spec fn rings_text(g: Seq<u8>, e: Endian, pos: int) -> Seq<char> {
    ring_list(g, e, pos + 4, u32_at(g, e, pos), true)
}

/// `n` polygon bodies from `pos` on, each in parentheses.
pub open spec fn polygon_list(g: Seq<u8>, e: Endian, pos: int, n: nat, first: bool) -> Seq<
    char,
>
    decreases n,
{
    if n == 0 {
        Seq::empty()
    } else {
        match rings_end(g, e, pos) {
            Some(p) => sep(first) + "("@ + rings_text(g, e, pos) + ")"@ + polygon_list(
                g,
                e,
                p,
                (n - 1) as nat,
                false,
            ),
            None => Seq::empty(),
        }
    }
}

/// The tagged geometry at `pos`.
pub open spec fn geometry_text(g: Seq<u8>, e: Endian, pos: int) -> Seq<char>
    decreases g.len() - pos, 0int,
{
    if 0 <= pos && pos < g.len() {
        let t = g[pos];
        if t == 1 {
            "POINT("@ + coord_text(g, e, pos + 1) + ")"@
        } else if t == 2 {
            "LINESTRING("@ + seq_text(g, e, pos + 1) + ")"@
        } else if t == 3 {
            "POLYGON("@ + rings_text(g, e, pos + 1) + ")"@
        } else if t == 4 {
            "MULTIPOINT("@ + seq_text(g, e, pos + 1) + ")"@
        } else if t == 5 {
            "MULTILINESTRING("@ + rings_text(g, e, pos + 1) + ")"@
        } else if t == 6 {
            "MULTIPOLYGON("@ + polygon_list(g, e, pos + 5, u32_at(g, e, pos + 1), true) + ")"@
        } else if t == 7 && pos + 5 <= g.len() {
            "GEOMETRYCOLLECTION("@ + member_list(g, e, pos + 5, u32_at(g, e, pos + 1), true)
                + ")"@
        } else {
            Seq::empty()
        }
    } else {
        Seq::empty()
    }
}

/// `n` tagged geometries from `pos` on, separated by `", "`.
pub open spec fn member_list(g: Seq<u8>, e: Endian, pos: int, n: nat, first: bool) -> Seq<char>
    decreases g.len() - pos, 1int, n,
{
    if n == 0 {
        Seq::empty()
    } else if 0 <= pos && pos < g.len() {
        match geometry_end(g, e, pos) {
            Some(p) => if pos < p && p <= g.len() {
                sep(first) + geometry_text(g, e, pos) + member_list(
                    g,
                    e,
                    p,
                    (n - 1) as nat,
                    false,
                )
            } else {
                Seq::empty()
            },
            None => Seq::empty(),
        }
    } else {
        Seq::empty()
    }
}

/// The WKT text of a well-formed blob.
pub open spec fn wkt_text(b: Seq<u8>) -> Seq<char> {
    "SRID="@ + decimal_text(srid_of(b)) + ";"@ + geometry_text(body_of(b), blob_endian(b), 0)
}

fn digit_str(d: u32) -> (r: &'static str)
    requires
        d < 10,
    ensures
        r@ == seq![digit_char(d as nat)],
{
    proof {
        reveal_strlit("0");
        reveal_strlit("1");
        reveal_strlit("2");
        reveal_strlit("3");
        reveal_strlit("4");
        reveal_strlit("5");
        reveal_strlit("6");
        reveal_strlit("7");
        reveal_strlit("8");
        reveal_strlit("9");
    }
    if d == 0 {
        "0"
    } else if d == 1 {
        "1"
    } else if d == 2 {
        "2"
    } else if d == 3 {
        "3"
    } else if d == 4 {
        "4"
    } else if d == 5 {
        "5"
    } else if d == 6 {
        "6"
    } else if d == 7 {
        "7"
    } else if d == 8 {
        "8"
    } else {
        "9"
    }
}

/// Appends the decimal digits of `n`.
pub fn write_decimal(n: u32, out: &mut String)
    ensures
        final(out)@ == old(out)@ + decimal_text(n as nat),
    decreases n,
{
    if n >= 10 {
        write_decimal(n / 10, out);
    }
    out.append(digit_str(n % 10));
    assert(final(out)@ =~= old(out)@ + decimal_text(n as nat));
}

fn write_coord(g: &[u8], e: Endian, pos: usize, out: &mut String)
    requires
        pos + 16 <= g@.len(),
    ensures
        final(out)@ == old(out)@ + coord_text(g@, e, pos as int),
{
    let len = g.len();
    let x = read_u64(g, pos, e);
    let y = read_u64(g, pos + 8, e);
    let xs = format_number(x);
    let ys = format_number(y);
    out.append(xs.as_str());
    out.append(" ");
    out.append(ys.as_str());
    assert(final(out)@ =~= old(out)@ + coord_text(g@, e, pos as int));
}

/// Appends the pairs of the coordinate sequence at `pos`; returns its end.
fn write_seq(g: &[u8], e: Endian, pos: usize, out: &mut String) -> (r: usize)
    requires
        coords_end(g@, e, pos as int) is Some,
    ensures
        final(out)@ == old(out)@ + seq_text(g@, e, pos as int),
        coords_end(g@, e, pos as int) == Some(r as int),
{
    let len = g.len();
    let n = read_u32(g, pos, e);
    let mut p = pos + 4;
    let mut i: u32 = 0;
    let ghost start = out@;
    while i < n
        invariant
            i <= n,
            len == g@.len(),
            n as nat == u32_at(g@, e, pos as int),
            p == pos + 4 + 16 * i,
            pos + 4 + 16 * n <= g@.len(),
            out@ + coord_list(g@, e, p as int, (n - i) as nat, i == 0) == start + seq_text(
                g@,
                e,
                pos as int,
            ),
        decreases n - i,
    {
        let ghost before = out@;
        if i > 0 {
            out.append(", ");
        }
        write_coord(g, e, p, out);
        proof {
            assert(out@ + coord_list(g@, e, p + 16, (n - i - 1) as nat, false) =~= before
                + coord_list(g@, e, p as int, (n - i) as nat, i == 0));
        }
        p = p + 16;
        i = i + 1;
    }
    assert(out@ =~= start + seq_text(g@, e, pos as int));
    p
}

/// Appends the rings of the polygon body at `pos`; returns its end.
fn write_rings(g: &[u8], e: Endian, pos: usize, out: &mut String) -> (r: usize)
    requires
        rings_end(g@, e, pos as int) is Some,
    ensures
        final(out)@ == old(out)@ + rings_text(g@, e, pos as int),
        rings_end(g@, e, pos as int) == Some(r as int),
{
    let len = g.len();
    let n = read_u32(g, pos, e);
    let mut p = pos + 4;
    let mut i: u32 = 0;
    let ghost start = out@;
    while i < n
        invariant
            i <= n,
            len == g@.len(),
            n as nat == u32_at(g@, e, pos as int),
            rings_from(g@, e, p as int, (n - i) as nat) == rings_end(g@, e, pos as int),
            rings_end(g@, e, pos as int) is Some,
            out@ + ring_list(g@, e, p as int, (n - i) as nat, i == 0) == start + rings_text(
                g@,
                e,
                pos as int,
            ),
        decreases n - i,
    {
        let ghost before = out@;
        if i > 0 {
            out.append(", ");
        }
        out.append("(");
        let q = write_seq(g, e, p, out);
        out.append(")");
        proof {
            assert(out@ + ring_list(g@, e, q as int, (n - i - 1) as nat, false) =~= before
                + ring_list(g@, e, p as int, (n - i) as nat, i == 0));
        }
        p = q;
        i = i + 1;
    }
    assert(out@ =~= start + rings_text(g@, e, pos as int));
    p
}

/// Appends the polygons of the multipolygon body at `pos`; returns its end.
fn write_polygons(g: &[u8], e: Endian, pos: usize, out: &mut String) -> (r: usize)
    requires
        polygons_end(g@, e, pos as int) is Some,
    ensures
        final(out)@ == old(out)@ + polygon_list(g@, e, pos + 4, u32_at(g@, e, pos as int), true),
        polygons_end(g@, e, pos as int) == Some(r as int),
{
    let len = g.len();
    let n = read_u32(g, pos, e);
    let mut p = pos + 4;
    let mut i: u32 = 0;
    let ghost start = out@;
    let ghost full = polygon_list(g@, e, pos + 4, n as nat, true);
    while i < n
        invariant
            i <= n,
            len == g@.len(),
            n as nat == u32_at(g@, e, pos as int),
            polygons_from(g@, e, p as int, (n - i) as nat) == polygons_end(g@, e, pos as int),
            polygons_end(g@, e, pos as int) is Some,
            out@ + polygon_list(g@, e, p as int, (n - i) as nat, i == 0) == start + full,
        decreases n - i,
    {
        let ghost before = out@;
        if i > 0 {
            out.append(", ");
        }
        out.append("(");
        let q = write_rings(g, e, p, out);
        out.append(")");
        proof {
            assert(out@ + polygon_list(g@, e, q as int, (n - i - 1) as nat, false) =~= before
                + polygon_list(g@, e, p as int, (n - i) as nat, i == 0));
        }
        p = q;
        i = i + 1;
    }
    assert(out@ =~= start + full);
    p
}

fn write_point(g: &[u8], e: Endian, pos: usize, out: &mut String) -> (r: usize)
    requires
        geometry_end(g@, e, pos as int) is Some,
        g@[pos as int] == 1,
    ensures
        final(out)@ == old(out)@ + geometry_text(g@, e, pos as int),
        geometry_end(g@, e, pos as int) == Some(r as int),
{
    let len = g.len();
    let ghost start = out@;
    out.append("POINT(");
    write_coord(g, e, pos + 1, out);
    out.append(")");
    assert(out@ =~= start + geometry_text(g@, e, pos as int));
    pos + 17
}

fn write_line(g: &[u8], e: Endian, pos: usize, out: &mut String) -> (r: usize)
    requires
        geometry_end(g@, e, pos as int) is Some,
        g@[pos as int] == 2 || g@[pos as int] == 4,
    ensures
        final(out)@ == old(out)@ + geometry_text(g@, e, pos as int),
        geometry_end(g@, e, pos as int) == Some(r as int),
{
    let len = g.len();
    let ghost start = out@;
    if g[pos] == 2 {
        out.append("LINESTRING(");
    } else {
        out.append("MULTIPOINT(");
    }
    let r = write_seq(g, e, pos + 1, out);
    out.append(")");
    assert(out@ =~= start + geometry_text(g@, e, pos as int));
    r
}

fn write_polygon(g: &[u8], e: Endian, pos: usize, out: &mut String) -> (r: usize)
    requires
        geometry_end(g@, e, pos as int) is Some,
        g@[pos as int] == 3 || g@[pos as int] == 5,
    ensures
        final(out)@ == old(out)@ + geometry_text(g@, e, pos as int),
        geometry_end(g@, e, pos as int) == Some(r as int),
{
    let len = g.len();
    let ghost start = out@;
    if g[pos] == 3 {
        out.append("POLYGON(");
    } else {
        out.append("MULTILINESTRING(");
    }
    let r = write_rings(g, e, pos + 1, out);
    out.append(")");
    assert(out@ =~= start + geometry_text(g@, e, pos as int));
    r
}

fn write_multipolygon(g: &[u8], e: Endian, pos: usize, out: &mut String) -> (r: usize)
    requires
        geometry_end(g@, e, pos as int) is Some,
        g@[pos as int] == 6,
    ensures
        final(out)@ == old(out)@ + geometry_text(g@, e, pos as int),
        geometry_end(g@, e, pos as int) == Some(r as int),
{
    let len = g.len();
    let ghost start = out@;
    out.append("MULTIPOLYGON(");
    let r = write_polygons(g, e, pos + 1, out);
    out.append(")");
    assert(out@ =~= start + geometry_text(g@, e, pos as int));
    r
}

fn write_collection(g: &[u8], e: Endian, pos: usize, out: &mut String) -> (r: usize)
    requires
        geometry_end(g@, e, pos as int) is Some,
        g@[pos as int] == 7,
    ensures
        final(out)@ == old(out)@ + geometry_text(g@, e, pos as int),
        geometry_end(g@, e, pos as int) == Some(r as int),
    decreases g@.len() - pos, 0int, 0int,
{
    let len = g.len();
    let ghost start = out@;
    out.append("GEOMETRYCOLLECTION(");
    let n = read_u32(g, pos + 1, e);
    let r = write_members(g, e, pos + 5, n, out);
    out.append(")");
    assert(out@ =~= start + geometry_text(g@, e, pos as int));
    r
}

/// Appends the tagged geometry at `pos`; returns its end.
pub fn write_geometry(g: &[u8], e: Endian, pos: usize, out: &mut String) -> (r: usize)
    requires
        geometry_end(g@, e, pos as int) is Some,
    ensures
        final(out)@ == old(out)@ + geometry_text(g@, e, pos as int),
        geometry_end(g@, e, pos as int) == Some(r as int),
    decreases g@.len() - pos, 1int, 0int,
{
    let t = g[pos];
    if t == 1 {
        write_point(g, e, pos, out)
    } else if t == 2 || t == 4 {
        write_line(g, e, pos, out)
    } else if t == 3 || t == 5 {
        write_polygon(g, e, pos, out)
    } else if t == 6 {
        write_multipolygon(g, e, pos, out)
    } else {
        write_collection(g, e, pos, out)
    }
}

fn write_members(g: &[u8], e: Endian, pos: usize, n: u32, out: &mut String) -> (r: usize)
    requires
        members_from(g@, e, pos as int, n as nat) is Some,
    ensures
        final(out)@ == old(out)@ + member_list(g@, e, pos as int, n as nat, true),
        members_from(g@, e, pos as int, n as nat) == Some(r as int),
    decreases g@.len() - pos, 2int, n,
{
    let mut p = pos;
    let mut i: u32 = 0;
    let ghost start = out@;
    while i < n
        invariant
            i <= n,
            pos <= p,
            members_from(g@, e, p as int, (n - i) as nat) == members_from(
                g@,
                e,
                pos as int,
                n as nat,
            ),
            members_from(g@, e, pos as int, n as nat) is Some,
            out@ + member_list(g@, e, p as int, (n - i) as nat, i == 0) == start + member_list(
                g@,
                e,
                pos as int,
                n as nat,
                true,
            ),
        decreases n - i,
    {
        let ghost before = out@;
        if i > 0 {
            out.append(", ");
        }
        let q = write_geometry(g, e, p, out);
        proof {
            assert(out@ + member_list(g@, e, q as int, (n - i - 1) as nat, false) =~= before
                + member_list(g@, e, p as int, (n - i) as nat, i == 0));
        }
        p = q;
        i = i + 1;
    }
    assert(out@ =~= start + member_list(g@, e, pos as int, n as nat, true));
    p
}

impl Geob {
    /// The WKT text with its SRID prefix.
    pub fn to_text(&self) -> (r: String)
        requires
            self.wf(),
        ensures
            r@ == wkt_text(self@),
    {
        let mut out = String::new();
        out.append("SRID=");
        write_decimal(self.srid(), &mut out);
        out.append(";");
        let e = self.endian();
        let (_, body) = self.as_bytes().split_at(HEADER_LEN);
        write_geometry(body, e, 0, &mut out);
        assert(out@ =~= wkt_text(self@));
        out
    }
}

} // verus!
