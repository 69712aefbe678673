//! The WKT reader: text of the form `SRID=<n>;<geometry>` to a little-endian
//! blob, in one pass. Counts are written as zero placeholders and patched in
//! place once the closing parenthesis has been read.
//!
//! `wkt_spec` states what the reader gives for every text; each `*_spec`
//! function gives the end of an element that starts at `p` and the bytes it
//! stands for, or `None` where the text there is not one.
use vstd::prelude::*;
use byteorder::ByteOrder;
use vstd::string::StringSliceAdditionalSpecFns;
use crate::layout::{check, well_formed};
use crate::scalar::{
    Endian, lemma_u32_bytes_len, push_u32, push_u64, u32_bytes, u64_bytes, write_u32_at,
};
use crate::geob::Geob;

verus! {

/// The bit pattern of the double that the standard parser reads from the
/// decimal text `text`, or `None` where it refuses the text.
pub uninterp spec fn decimal_bits(text: Seq<u8>) -> Option<u64>;

/// Relies on `str::parse` to read a decimal number as a double, and on
/// byteorder's `LittleEndian::write_f64` / `read_u64` to take its bit pattern.
#[verifier::external_body]
fn parse_decimal(text: &[u8]) -> (r: Option<u64>)
    ensures
        r == decimal_bits(text@),
{
    let s = core::str::from_utf8(text).ok()?;
    let mut buf = [0u8; 8];
    byteorder::LittleEndian::write_f64(&mut buf, s.parse().ok()?);
    Some(byteorder::LittleEndian::read_u64(&buf))
}

/// Where the text was refused.
#[derive(Clone, Copy, Debug, PartialEq, Eq, Structural)]
pub struct TextError {
    /// Byte offset in the text at which reading stopped.
    pub position: usize,
}

pub open spec fn is_ws(c: u8) -> bool {
    c == 32 || c == 9 || c == 10 || c == 13 || c == 12
}

pub open spec fn is_digit(c: u8) -> bool {
    48 <= c <= 57
}

/// Byte `c` stands at `p`.
pub open spec fn at_byte(s: Seq<u8>, p: int, c: u8) -> bool {
    0 <= p < s.len() && s[p] == c
}

/// The word `w` stands at `p`.
pub open spec fn word_at_spec(s: Seq<u8>, p: int, w: Seq<u8>) -> bool {
    0 <= p && p + w.len() <= s.len() && s.subrange(p, p + w.len()) == w
}

/// First position from `p` on that holds no whitespace.
pub open spec fn ws_end(s: Seq<u8>, p: int) -> int
    decreases s.len() - p,
{
    if 0 <= p < s.len() && is_ws(s[p]) {
        ws_end(s, p + 1)
    } else {
        p
    }
}

/// First position from `p` on that holds no digit.
pub open spec fn digits_to(s: Seq<u8>, p: int) -> int
    decreases s.len() - p,
{
    if 0 <= p < s.len() && is_digit(s[p]) {
        digits_to(s, p + 1)
    } else {
        p
    }
}

/// Value of the digits in `p..q`.
pub open spec fn digits_value(s: Seq<u8>, p: int, q: int) -> nat
    decreases q - p,
{
    if q <= p {
        0
    } else {
        digits_value(s, p, q - 1) * 10 + (s[q - 1] - 48) as nat
    }
}

/// End of a number `-?d+(.d*)?([eE]-?d+)?` at `p`.
pub open spec fn number_end_spec(s: Seq<u8>, p: int) -> Option<int> {
    let p1 = if at_byte(s, p, 45) {
        p + 1
    } else {
        p
    };
    let q = digits_to(s, p1);
    if q == p1 {
        None
    } else {
        let p2 = if at_byte(s, q, 46) {
            digits_to(s, q + 1)
        } else {
            q
        };
        if at_byte(s, p2, 101) || at_byte(s, p2, 69) {
            let k = if at_byte(s, p2 + 1, 45) {
                p2 + 2
            } else {
                p2 + 1
            };
            let d = digits_to(s, k);
            if d == k {
                None
            } else {
                Some(d)
            }
        } else {
            Some(p2)
        }
    }
}

/// A number and the eight bytes of its double.
pub open spec fn number_spec(s: Seq<u8>, p: int) -> Option<(int, Seq<u8>)> {
    match number_end_spec(s, p) {
        Some(e) => match decimal_bits(s.subrange(p, e)) {
            Some(b) => Some((e, u64_bytes(b, Endian::Little))),
            None => None,
        },
        None => None,
    }
}

/// `x y`: two numbers with whitespace between them.
pub open spec fn coord_spec(s: Seq<u8>, p: int) -> Option<(int, Seq<u8>)> {
    match number_spec(s, p) {
        Some((p1, o1)) => {
            let q = ws_end(s, p1);
            if q == p1 {
                None
            } else {
                match number_spec(s, q) {
                    Some((p2, o2)) => Some((p2, o1 + o2)),
                    None => None,
                }
            }
        },
        None => None,
    }
}

/// Where the next element of a list starts: right away for the first, after
/// a comma for the others.
pub open spec fn item_start(s: Seq<u8>, q: int, first: bool) -> Option<int> {
    if first {
        Some(q)
    } else if at_byte(s, q, 44) {
        Some(ws_end(s, q + 1))
    } else {
        None
    }
}

/// Adds one element to the rest of a list, within the 32-bit count.
pub open spec fn cons_item(o: Seq<u8>, rest: Option<(int, nat, Seq<u8>)>) -> Option<
    (int, nat, Seq<u8>),
> {
    match rest {
        Some((end, n, r)) => if n + 1 <= u32::MAX {
            Some((end, n + 1, o + r))
        } else {
            None
        },
        None => None,
    }
}

/// The coordinate pairs of a list from `p` to its closing parenthesis: the
/// position after it, the count, and the bytes.
pub open spec fn coord_items(s: Seq<u8>, p: int, first: bool) -> Option<(int, nat, Seq<u8>)>
    decreases s.len() - p,
{
    let q = ws_end(s, p);
    if p < 0 || p > s.len() {
        None
    } else if at_byte(s, q, 41) {
        Some((q + 1, 0nat, Seq::empty()))
    } else {
        match item_start(s, q, first) {
            Some(st) => match coord_spec(s, st) {
                Some((e, o)) => if p < e && e <= s.len() {
                    cons_item(o, coord_items(s, e, false))
                } else {
                    None
                },
                None => None,
            },
            None => None,
        }
    }
}

/// A count and bytes for a parenthesised list.
pub open spec fn counted(r: Option<(int, nat, Seq<u8>)>) -> Option<(int, Seq<u8>)> {
    match r {
        Some((e, n, o)) => Some((e, u32_bytes(n as u32, Endian::Little) + o)),
        None => None,
    }
}

/// `( x y, ... )`
pub open spec fn coords_spec(s: Seq<u8>, p: int) -> Option<(int, Seq<u8>)> {
    if at_byte(s, p, 40) {
        counted(coord_items(s, p + 1, true))
    } else {
        None
    }
}

pub open spec fn ring_items(s: Seq<u8>, p: int, first: bool) -> Option<(int, nat, Seq<u8>)>
    decreases s.len() - p,
{
    let q = ws_end(s, p);
    if p < 0 || p > s.len() {
        None
    } else if at_byte(s, q, 41) {
        Some((q + 1, 0nat, Seq::empty()))
    } else {
        match item_start(s, q, first) {
            Some(st) => match coords_spec(s, st) {
                Some((e, o)) => if p < e && e <= s.len() {
                    cons_item(o, ring_items(s, e, false))
                } else {
                    None
                },
                None => None,
            },
            None => None,
        }
    }
}

/// `( (x y, ...), ... )`
pub open spec fn rings_spec(s: Seq<u8>, p: int) -> Option<(int, Seq<u8>)> {
    if at_byte(s, p, 40) {
        counted(ring_items(s, p + 1, true))
    } else {
        None
    }
}

pub open spec fn polygon_items(s: Seq<u8>, p: int, first: bool) -> Option<(int, nat, Seq<u8>)>
    decreases s.len() - p,
{
    let q = ws_end(s, p);
    if p < 0 || p > s.len() {
        None
    } else if at_byte(s, q, 41) {
        Some((q + 1, 0nat, Seq::empty()))
    } else {
        match item_start(s, q, first) {
            Some(st) => match rings_spec(s, st) {
                Some((e, o)) => if p < e && e <= s.len() {
                    cons_item(o, polygon_items(s, e, false))
                } else {
                    None
                },
                None => None,
            },
            None => None,
        }
    }
}

/// `( ((x y, ...), ...), ... )`
pub open spec fn polygons_spec(s: Seq<u8>, p: int) -> Option<(int, Seq<u8>)> {
    if at_byte(s, p, 40) {
        counted(polygon_items(s, p + 1, true))
    } else {
        None
    }
}

pub open spec fn kw_point() -> Seq<u8> {
    seq![80u8, 79, 73, 78, 84]
}

pub open spec fn kw_line() -> Seq<u8> {
    seq![76u8, 73, 78, 69, 83, 84, 82, 73, 78, 71]
}

pub open spec fn kw_polygon() -> Seq<u8> {
    seq![80u8, 79, 76, 89, 71, 79, 78]
}

pub open spec fn kw_multi() -> Seq<u8> {
    seq![77u8, 85, 76, 84, 73]
}

pub open spec fn kw_collection() -> Seq<u8> {
    seq![71u8, 69, 79, 77, 69, 84, 82, 89, 67, 79, 76, 76, 69, 67, 84, 73, 79, 78]
}

/// The type byte named by the keyword at `p`, and the position after it;
/// type `0` where no keyword stands there.
pub open spec fn keyword_spec(s: Seq<u8>, p: int) -> (u8, int) {
    if word_at_spec(s, p, kw_collection()) {
        (7, p + 18)
    } else if word_at_spec(s, p, kw_multi()) {
        if word_at_spec(s, p + 5, kw_point()) {
            (4, p + 10)
        } else if word_at_spec(s, p + 5, kw_line()) {
            (5, p + 15)
        } else if word_at_spec(s, p + 5, kw_polygon()) {
            (6, p + 12)
        } else {
            (0, p)
        }
    } else if word_at_spec(s, p, kw_point()) {
        (1, p + 5)
    } else if word_at_spec(s, p, kw_line()) {
        (2, p + 10)
    } else if word_at_spec(s, p, kw_polygon()) {
        (3, p + 7)
    } else {
        (0, p)
    }
}

/// `( x y )` of a point.
pub open spec fn point_body_spec(s: Seq<u8>, b: int) -> Option<(int, Seq<u8>)> {
    if at_byte(s, b, 40) {
        match coord_spec(s, ws_end(s, b + 1)) {
            Some((e, o)) => {
                let f = ws_end(s, e);
                if at_byte(s, f, 41) {
                    Some((f + 1, o))
                } else {
                    None
                }
            },
            None => None,
        }
    } else {
        None
    }
}

/// Prefixes the type byte to the bytes of a body.
pub open spec fn tagged(t: u8, r: Option<(int, Seq<u8>)>) -> Option<(int, Seq<u8>)> {
    match r {
        Some((e, o)) => Some((e, seq![t] + o)),
        None => None,
    }
}

/// A keyword, optional whitespace, and the body it calls for.
pub open spec fn geometry_spec(s: Seq<u8>, p: int) -> Option<(int, Seq<u8>)>
    decreases s.len() - p, 1int,
{
    let (t, q) = keyword_spec(s, p);
    if t == 0 || q <= p || q > s.len() {
        None
    } else {
        let b = ws_end(s, q);
        if t == 1 {
            tagged(t, point_body_spec(s, b))
        } else if t == 2 || t == 4 {
            tagged(t, coords_spec(s, b))
        } else if t == 3 || t == 5 {
            tagged(t, rings_spec(s, b))
        } else if t == 6 {
            tagged(t, polygons_spec(s, b))
        } else if at_byte(s, b, 40) && q <= b {
            tagged(t, counted(member_items(s, b + 1, true)))
        } else {
            None
        }
    }
}

pub open spec fn member_items(s: Seq<u8>, p: int, first: bool) -> Option<(int, nat, Seq<u8>)>
    decreases s.len() - p, 2int,
{
    let q = ws_end(s, p);
    if p < 0 || p > s.len() {
        None
    } else if at_byte(s, q, 41) {
        Some((q + 1, 0nat, Seq::empty()))
    } else {
        match item_start(s, q, first) {
            Some(st) => if p <= st && st <= s.len() {
                match geometry_spec(s, st) {
                    Some((e, o)) => if p < e && e <= s.len() {
                        cons_item(o, member_items(s, e, false))
                    } else {
                        None
                    },
                    None => None,
                }
            } else {
                None
            },
            None => None,
        }
    }
}

/// The text starts with `SRID=`.
pub open spec fn has_srid_prefix(s: Seq<u8>) -> bool {
    word_at_spec(s, 0, seq![83u8, 82, 73, 68, 61])
}

/// The blob that the reader gives for the text, or `None` where it refuses it.
pub open spec fn wkt_spec(s: Seq<u8>) -> Option<Seq<u8>> {
    if !has_srid_prefix(s) {
        None
    } else {
        let d = digits_to(s, 5);
        if d == 5 || digits_value(s, 5, d) > u32::MAX || !at_byte(s, d, 59) {
            None
        } else {
            match geometry_spec(s, ws_end(s, d + 1)) {
                Some((e, o)) => if ws_end(s, e) == s.len() {
                    Some(
                        seq![1u8] + u32_bytes(digits_value(s, 5, d) as u32, Endian::Little) + o,
                    )
                } else {
                    None
                },
                None => None,
            }
        }
    }
}

/// The bytes that a successful read gives.
pub open spec fn produced(r: Option<(int, Seq<u8>)>) -> Seq<u8> {
    match r {
        Some((_, o)) => o,
        None => Seq::empty(),
    }
}

/// The list so far (`c` elements, bytes `acc`) followed by the rest `r`.
pub open spec fn combine(c: nat, acc: Seq<u8>, r: Option<(int, nat, Seq<u8>)>) -> Option<
    (int, nat, Seq<u8>),
> {
    match r {
        Some((e, n, o)) => if c + n <= u32::MAX {
            Some((e, c + n, acc + o))
        } else {
            None
        },
        None => None,
    }
}

/// The exec result `r` and the bytes appended (`before` to `after`) agree
/// with what the spec function gave.
pub open spec fn follows(
    r: Result<usize, TextError>,
    sp: Option<(int, Seq<u8>)>,
    before: Seq<u8>,
    after: Seq<u8>,
) -> bool {
    match sp {
        Some((e, o)) => (r matches Ok(p) && p as int == e) && after == before + o,
        None => r is Err,
    }
}

proof fn lemma_combine_cons(c: nat, acc: Seq<u8>, o: Seq<u8>, r: Option<(int, nat, Seq<u8>)>)
    ensures
        combine(c, acc, cons_item(o, r)) == combine(c + 1, acc + o, r),
{
    if let Some((e, n, rest)) = r {
        assert(acc + (o + rest) =~= acc + o + rest);
    }
}

fn skip_ws(s: &[u8], pos: usize) -> (r: usize)
    requires
        pos <= s@.len(),
    ensures
        r as int == ws_end(s@, pos as int),
        pos <= r <= s@.len(),
    decreases s@.len() - pos,
{
    if pos < s.len() && (s[pos] == 32 || s[pos] == 9 || s[pos] == 10 || s[pos] == 13 || s[pos]
        == 12) {
        skip_ws(s, pos + 1)
    } else {
        pos
    }
}

fn digits_end(s: &[u8], pos: usize) -> (r: usize)
    requires
        pos <= s@.len(),
    ensures
        r as int == digits_to(s@, pos as int),
        pos <= r <= s@.len(),
        forall|i: int| pos <= i < r ==> is_digit(#[trigger] s@[i]),
    decreases s@.len() - pos,
{
    if pos < s.len() && 48 <= s[pos] && s[pos] <= 57 {
        digits_end(s, pos + 1)
    } else {
        pos
    }
}

fn at(s: &[u8], pos: usize, c: u8) -> (r: bool)
    ensures
        r == at_byte(s@, pos as int, c),
{
    pos < s.len() && s[pos] == c
}

fn expect(s: &[u8], pos: usize, c: u8) -> (r: Result<usize, TextError>)
    ensures
        r is Ok <==> at_byte(s@, pos as int, c),
        r matches Ok(p) ==> p == pos + 1 && p <= s@.len(),
{
    if pos < s.len() && s[pos] == c {
        Ok(pos + 1)
    } else {
        Err(TextError { position: pos })
    }
}

/// Whether the word `w` stands at `pos`.
fn word_at(s: &[u8], pos: usize, w: &[u8]) -> (r: bool)
    ensures
        r == word_at_spec(s@, pos as int, w@),
{
    let len = s.len();
    if pos > len || len - pos < w.len() {
        return false;
    }
    let mut i: usize = 0;
    while i < w.len()
        invariant
            i <= w@.len(),
            pos + w@.len() <= s@.len(),
            len == s@.len(),
            forall|k: int| 0 <= k < i ==> s@[pos + k] == w@[k],
        decreases w@.len() - i,
    {
        if s[pos + i] != w[i] {
            assert(s@.subrange(pos as int, pos + w@.len())[i as int] != w@[i as int]);
            return false;
        }
        i = i + 1;
    }
    assert(s@.subrange(pos as int, pos + w@.len()) =~= w@);
    true
}

/// End of the number that starts at `pos`.
fn number_end(s: &[u8], pos: usize) -> (r: Result<usize, TextError>)
    requires
        pos <= s@.len(),
    ensures
        r is Ok <==> number_end_spec(s@, pos as int) is Some,
        r matches Ok(p) ==> number_end_spec(s@, pos as int) == Some(p as int) && pos < p
            <= s@.len(),
{
    let len = s.len();
    let mut p = pos;
    if at(s, p, 45) {
        p = p + 1;
    }
    let q = digits_end(s, p);
    if q == p {
        return Err(TextError { position: p });
    }
    p = q;
    if at(s, p, 46) {
        p = digits_end(s, p + 1);
    }
    if at(s, p, 101) || at(s, p, 69) {
        let mut k = p + 1;
        if at(s, k, 45) {
            k = k + 1;
        }
        let d = digits_end(s, k);
        if d == k {
            return Err(TextError { position: k });
        }
        p = d;
    }
    Ok(p)
}

/// Reads one number and appends its bit pattern.
fn read_number(s: &[u8], pos: usize, out: &mut Vec<u8>) -> (r: Result<usize, TextError>)
    requires
        pos <= s@.len(),
    ensures
        follows(r, number_spec(s@, pos as int), old(out)@, final(out)@),
        r matches Ok(p) ==> pos < p <= s@.len(),
{
    let end = number_end(s, pos)?;
    let (head, _) = s.split_at(end);
    let (_, text) = head.split_at(pos);
    assert(text@ =~= s@.subrange(pos as int, end as int));
    match parse_decimal(text) {
        Some(bits) => {
            push_u64(out, bits, Endian::Little);
            Ok(end)
        },
        None => Err(TextError { position: pos }),
    }
}

/// `x y`: two numbers with whitespace between them.
fn read_coord(s: &[u8], pos: usize, out: &mut Vec<u8>) -> (r: Result<usize, TextError>)
    requires
        pos <= s@.len(),
    ensures
        follows(r, coord_spec(s@, pos as int), old(out)@, final(out)@),
        r matches Ok(p) ==> pos < p <= s@.len(),
{
    let ghost before = out@;
    let p = read_number(s, pos, out)?;
    let q = skip_ws(s, p);
    if q == p {
        return Err(TextError { position: p });
    }
    let e = read_number(s, q, out)?;
    proof {
        let o1 = produced(number_spec(s@, pos as int));
        let o2 = produced(number_spec(s@, q as int));
        assert(out@ =~= before + (o1 + o2));
    }
    Ok(e)
}

/// A parenthesised list whose elements `read_coord` reads; the count is
/// written as a placeholder first and patched in at the end.
#[verifier::rlimit(100)]
fn read_coords(s: &[u8], pos: usize, out: &mut Vec<u8>) -> (r: Result<usize, TextError>)
    requires
        pos <= s@.len(),
    ensures
        follows(r, coords_spec(s@, pos as int), old(out)@, final(out)@),
        r matches Ok(p) ==> pos < p <= s@.len(),
{
    let len = s.len();
    let ghost before = out@;
    let mut p = expect(s, pos, 40)?;
    let at_count = out.len();
    push_u32(out, 0, Endian::Little);
    let mut count: u32 = 0;
    let ghost mut acc: Seq<u8> = Seq::empty();
    let ghost top = coord_items(s@, pos + 1, true);
    proof {
        assert(acc =~= Seq::<u8>::empty());
        assert(before + u32_bytes(0, Endian::Little) + acc =~= before + u32_bytes(0, Endian::Little));
    }
    loop
        invariant
            pos < p <= s@.len(),
            len == s@.len(),
            at_count == before.len(),
            out@ == before + u32_bytes(0, Endian::Little) + acc,
            top == coord_items(s@, pos + 1, true),
            top == combine(count as nat, acc, coord_items(s@, p as int, count == 0)),
        ensures
            pos < p < s@.len(),
            at_byte(s@, p as int, 41),
            out@ == before + u32_bytes(0, Endian::Little) + acc,
            top == Some((p + 1, count as nat, acc)),
        decreases s@.len() - p,
    {
        let q = skip_ws(s, p);
        if at(s, q, 41) {
            p = q;
            assert(acc + Seq::<u8>::empty() =~= acc);
            break;
        }
        let st = if count > 0 {
            if !at(s, q, 44) {
                return Err(TextError { position: q });
            }
            assert(q < s@.len());
            skip_ws(s, q + 1)
        } else {
            q
        };
        if count == u32::MAX {
            return Err(TextError { position: st });
        }
        let e = read_coord(s, st, out)?;
        proof {
            let o = produced(coord_spec(s@, st as int));
            lemma_combine_cons(count as nat, acc, o, coord_items(s@, e as int, false));
            acc = acc + o;
            assert(out@ =~= before + u32_bytes(0, Endian::Little) + acc);
        }
        count = count + 1;
        p = e;
    }
    proof {
        lemma_u32_bytes_len(0, Endian::Little);
    }
    write_u32_at(out, at_count, count, Endian::Little);
    proof {
        lemma_u32_bytes_len(count, Endian::Little);
        assert(out@ =~= before + (u32_bytes(count, Endian::Little) + acc));
    }
    expect(s, p, 41)
}

/// A parenthesised list whose elements `read_coords` reads; the count is
/// written as a placeholder first and patched in at the end.
#[verifier::rlimit(100)]
fn read_rings(s: &[u8], pos: usize, out: &mut Vec<u8>) -> (r: Result<usize, TextError>)
    requires
        pos <= s@.len(),
    ensures
        follows(r, rings_spec(s@, pos as int), old(out)@, final(out)@),
        r matches Ok(p) ==> pos < p <= s@.len(),
{
    let len = s.len();
    let ghost before = out@;
    let mut p = expect(s, pos, 40)?;
    let at_count = out.len();
    push_u32(out, 0, Endian::Little);
    let mut count: u32 = 0;
    let ghost mut acc: Seq<u8> = Seq::empty();
    let ghost top = ring_items(s@, pos + 1, true);
    proof {
        assert(acc =~= Seq::<u8>::empty());
        assert(before + u32_bytes(0, Endian::Little) + acc =~= before + u32_bytes(0, Endian::Little));
    }
    loop
        invariant
            pos < p <= s@.len(),
            len == s@.len(),
            at_count == before.len(),
            out@ == before + u32_bytes(0, Endian::Little) + acc,
            top == ring_items(s@, pos + 1, true),
            top == combine(count as nat, acc, ring_items(s@, p as int, count == 0)),
        ensures
            pos < p < s@.len(),
            at_byte(s@, p as int, 41),
            out@ == before + u32_bytes(0, Endian::Little) + acc,
            top == Some((p + 1, count as nat, acc)),
        decreases s@.len() - p,
    {
        let q = skip_ws(s, p);
        if at(s, q, 41) {
            p = q;
            assert(acc + Seq::<u8>::empty() =~= acc);
            break;
        }
        let st = if count > 0 {
            if !at(s, q, 44) {
                return Err(TextError { position: q });
            }
            assert(q < s@.len());
            skip_ws(s, q + 1)
        } else {
            q
        };
        if count == u32::MAX {
            return Err(TextError { position: st });
        }
        let e = read_coords(s, st, out)?;
        proof {
            let o = produced(coords_spec(s@, st as int));
            lemma_combine_cons(count as nat, acc, o, ring_items(s@, e as int, false));
            acc = acc + o;
            assert(out@ =~= before + u32_bytes(0, Endian::Little) + acc);
        }
        count = count + 1;
        p = e;
    }
    proof {
        lemma_u32_bytes_len(0, Endian::Little);
    }
    write_u32_at(out, at_count, count, Endian::Little);
    proof {
        lemma_u32_bytes_len(count, Endian::Little);
        assert(out@ =~= before + (u32_bytes(count, Endian::Little) + acc));
    }
    expect(s, p, 41)
}

/// A parenthesised list whose elements `read_rings` reads; the count is
/// written as a placeholder first and patched in at the end.
#[verifier::rlimit(100)]
fn read_polygons(s: &[u8], pos: usize, out: &mut Vec<u8>) -> (r: Result<usize, TextError>)
    requires
        pos <= s@.len(),
    ensures
        follows(r, polygons_spec(s@, pos as int), old(out)@, final(out)@),
        r matches Ok(p) ==> pos < p <= s@.len(),
{
    let len = s.len();
    let ghost before = out@;
    let mut p = expect(s, pos, 40)?;
    let at_count = out.len();
    push_u32(out, 0, Endian::Little);
    let mut count: u32 = 0;
    let ghost mut acc: Seq<u8> = Seq::empty();
    let ghost top = polygon_items(s@, pos + 1, true);
    proof {
        assert(acc =~= Seq::<u8>::empty());
        assert(before + u32_bytes(0, Endian::Little) + acc =~= before + u32_bytes(0, Endian::Little));
    }
    loop
        invariant
            pos < p <= s@.len(),
            len == s@.len(),
            at_count == before.len(),
            out@ == before + u32_bytes(0, Endian::Little) + acc,
            top == polygon_items(s@, pos + 1, true),
            top == combine(count as nat, acc, polygon_items(s@, p as int, count == 0)),
        ensures
            pos < p < s@.len(),
            at_byte(s@, p as int, 41),
            out@ == before + u32_bytes(0, Endian::Little) + acc,
            top == Some((p + 1, count as nat, acc)),
        decreases s@.len() - p,
    {
        let q = skip_ws(s, p);
        if at(s, q, 41) {
            p = q;
            assert(acc + Seq::<u8>::empty() =~= acc);
            break;
        }
        let st = if count > 0 {
            if !at(s, q, 44) {
                return Err(TextError { position: q });
            }
            assert(q < s@.len());
            skip_ws(s, q + 1)
        } else {
            q
        };
        if count == u32::MAX {
            return Err(TextError { position: st });
        }
        let e = read_rings(s, st, out)?;
        proof {
            let o = produced(rings_spec(s@, st as int));
            lemma_combine_cons(count as nat, acc, o, polygon_items(s@, e as int, false));
            acc = acc + o;
            assert(out@ =~= before + u32_bytes(0, Endian::Little) + acc);
        }
        count = count + 1;
        p = e;
    }
    proof {
        lemma_u32_bytes_len(0, Endian::Little);
    }
    write_u32_at(out, at_count, count, Endian::Little);
    proof {
        lemma_u32_bytes_len(count, Endian::Little);
        assert(out@ =~= before + (u32_bytes(count, Endian::Little) + acc));
    }
    expect(s, p, 41)
}

/// A parenthesised list whose elements `read_geometry` reads; the count is
/// written as a placeholder first and patched in at the end.
#[verifier::rlimit(100)]
fn read_members(s: &[u8], pos: usize, out: &mut Vec<u8>) -> (r: Result<usize, TextError>)
    requires
        pos < s@.len(),
        at_byte(s@, pos as int, 40),
    ensures
        follows(r, counted(member_items(s@, pos + 1, true)), old(out)@, final(out)@),
        r matches Ok(p) ==> pos < p <= s@.len(),
    decreases s@.len() - pos, 0int,
{
    let len = s.len();
    let ghost before = out@;
    let mut p = pos + 1;
    let at_count = out.len();
    push_u32(out, 0, Endian::Little);
    let mut count: u32 = 0;
    let ghost mut acc: Seq<u8> = Seq::empty();
    let ghost top = member_items(s@, pos + 1, true);
    proof {
        assert(acc =~= Seq::<u8>::empty());
        assert(before + u32_bytes(0, Endian::Little) + acc =~= before + u32_bytes(0, Endian::Little));
    }
    loop
        invariant
            pos < p <= s@.len(),
            len == s@.len(),
            at_count == before.len(),
            out@ == before + u32_bytes(0, Endian::Little) + acc,
            top == member_items(s@, pos + 1, true),
            top == combine(count as nat, acc, member_items(s@, p as int, count == 0)),
        ensures
            pos < p < s@.len(),
            at_byte(s@, p as int, 41),
            out@ == before + u32_bytes(0, Endian::Little) + acc,
            top == Some((p + 1, count as nat, acc)),
        decreases s@.len() - p,
    {
        let q = skip_ws(s, p);
        if at(s, q, 41) {
            p = q;
            assert(acc + Seq::<u8>::empty() =~= acc);
            break;
        }
        let st = if count > 0 {
            if !at(s, q, 44) {
                return Err(TextError { position: q });
            }
            assert(q < s@.len());
            skip_ws(s, q + 1)
        } else {
            q
        };
        if count == u32::MAX {
            return Err(TextError { position: st });
        }
        let e = read_geometry(s, st, out)?;
        proof {
            let o = produced(geometry_spec(s@, st as int));
            lemma_combine_cons(count as nat, acc, o, member_items(s@, e as int, false));
            acc = acc + o;
            assert(out@ =~= before + u32_bytes(0, Endian::Little) + acc);
        }
        count = count + 1;
        p = e;
    }
    proof {
        lemma_u32_bytes_len(0, Endian::Little);
    }
    write_u32_at(out, at_count, count, Endian::Little);
    proof {
        lemma_u32_bytes_len(count, Endian::Little);
        assert(out@ =~= before + (u32_bytes(count, Endian::Little) + acc));
    }
    expect(s, p, 41)
}

/// `( x y )` of a point.
fn read_point_body(s: &[u8], pos: usize, out: &mut Vec<u8>) -> (r: Result<usize, TextError>)
    requires
        pos <= s@.len(),
    ensures
        follows(r, point_body_spec(s@, pos as int), old(out)@, final(out)@),
        r matches Ok(p) ==> pos < p <= s@.len(),
{
    let p = expect(s, pos, 40)?;
    let p = skip_ws(s, p);
    let p = read_coord(s, p, out)?;
    let p = skip_ws(s, p);
    expect(s, p, 41)
}

/// The type byte named by the keyword at `pos`, and the position after it.
fn keyword(s: &[u8], pos: usize) -> (r: (u8, usize))
    requires
        pos <= s@.len(),
    ensures
        (r.0, r.1 as int) == keyword_spec(s@, pos as int),
{
    let len = s.len();
    let point: [u8; 5] = [80, 79, 73, 78, 84];
    let line: [u8; 10] = [76, 73, 78, 69, 83, 84, 82, 73, 78, 71];
    let polygon: [u8; 7] = [80, 79, 76, 89, 71, 79, 78];
    let multi: [u8; 5] = [77, 85, 76, 84, 73];
    let collection: [u8; 18] = [
        71, 69, 79, 77, 69, 84, 82, 89, 67, 79, 76, 76, 69, 67, 84, 73, 79, 78,
    ];
    assert(point@ =~= kw_point());
    assert(line@ =~= kw_line());
    assert(polygon@ =~= kw_polygon());
    assert(multi@ =~= kw_multi());
    assert(collection@ =~= kw_collection());
    if word_at(s, pos, &collection) {
        (7, pos + 18)
    } else if word_at(s, pos, &multi) {
        if word_at(s, pos + 5, &point) {
            (4, pos + 10)
        } else if word_at(s, pos + 5, &line) {
            (5, pos + 15)
        } else if word_at(s, pos + 5, &polygon) {
            (6, pos + 12)
        } else {
            (0, pos)
        }
    } else if word_at(s, pos, &point) {
        (1, pos + 5)
    } else if word_at(s, pos, &line) {
        (2, pos + 10)
    } else if word_at(s, pos, &polygon) {
        (3, pos + 7)
    } else {
        (0, pos)
    }
}

/// A keyword, its type byte, optional whitespace, and the body.
/// The body that the type byte `t` calls for, at `b`; `q` is where the
/// keyword ended.
pub open spec fn body_spec(s: Seq<u8>, t: u8, q: int, b: int) -> Option<(int, Seq<u8>)> {
    if t == 1 {
        point_body_spec(s, b)
    } else if t == 2 || t == 4 {
        coords_spec(s, b)
    } else if t == 3 || t == 5 {
        rings_spec(s, b)
    } else if t == 6 {
        polygons_spec(s, b)
    } else if at_byte(s, b, 40) && q <= b {
        counted(member_items(s, b + 1, true))
    } else {
        None
    }
}

#[verifier::rlimit(100)]
fn read_body(s: &[u8], t: u8, q: usize, b: usize, out: &mut Vec<u8>) -> (r: Result<usize, TextError>)
    requires
        q <= b <= s@.len(),
        1 <= t <= 7,
    ensures
        follows(r, body_spec(s@, t, q as int, b as int), old(out)@, final(out)@),
        r matches Ok(p) ==> b < p <= s@.len(),
    decreases s@.len() - b, 3int,
{
    if t == 1 {
        read_point_body(s, b, out)
    } else if t == 2 || t == 4 {
        read_coords(s, b, out)
    } else if t == 3 || t == 5 {
        read_rings(s, b, out)
    } else if t == 6 {
        read_polygons(s, b, out)
    } else {
        if !at(s, b, 40) {
            return Err(TextError { position: b });
        }
        read_members(s, b, out)
    }
}

proof fn lemma_keyword_advances(s: Seq<u8>, pos: int)
    requires
        0 <= pos <= s.len(),
    ensures
        keyword_spec(s, pos).0 != 0 ==> pos < keyword_spec(s, pos).1 <= s.len(),
{
}

proof fn lemma_geometry_spec_split(s: Seq<u8>, pos: int, t: u8, q: int)
    requires
        keyword_spec(s, pos) == (t, q),
        t != 0,
        pos < q <= s.len(),
    ensures
        geometry_spec(s, pos) == tagged(t, body_spec(s, t, q, ws_end(s, q))),
{
}

/// A keyword, its type byte, optional whitespace, and the body.
#[verifier::rlimit(60)]
fn read_geometry(s: &[u8], pos: usize, out: &mut Vec<u8>) -> (r: Result<usize, TextError>)
    requires
        pos <= s@.len(),
    ensures
        follows(r, geometry_spec(s@, pos as int), old(out)@, final(out)@),
        r matches Ok(p) ==> pos < p <= s@.len(),
    decreases s@.len() - pos, 1int,
{
    let ghost before = out@;
    let (t, q) = keyword(s, pos);
    if t == 0 {
        return Err(TextError { position: pos });
    }
    proof {
        lemma_keyword_advances(s@, pos as int);
    }
    let b = skip_ws(s, q);
    proof {
        lemma_geometry_spec_split(s@, pos as int, t, q as int);
    }
    out.push(t);
    let r = read_body(s, t, q, b, out);
    proof {
        if r is Ok {
            let o = produced(body_spec(s@, t, q as int, b as int));
            assert(out@ =~= before + (seq![t] + o));
        }
    }
    r
}

/// Reads the blob that the text describes, in little-endian byte order.
pub fn parse_wkt(s: &[u8]) -> (r: Result<Vec<u8>, TextError>)
    ensures
        r matches Ok(b) ==> wkt_spec(s@) == Some(b@) && well_formed(b@),
        wkt_spec(s@) is None ==> r is Err,
        wkt_spec(s@) matches Some(b) && well_formed(b) ==> r is Ok,
{
    let srid_word: [u8; 5] = [83, 82, 73, 68, 61];
    assert(srid_word@ =~= seq![83u8, 82, 73, 68, 61]);
    if !word_at(s, 0, &srid_word) {
        return Err(TextError { position: 0 });
    }
    let (srid, d) = read_u32_decimal(s, 5)?;
    let p = expect(s, d, 59)?;
    let p = skip_ws(s, p);
    let mut out: Vec<u8> = Vec::new();
    out.push(1);
    push_u32(&mut out, srid, Endian::Little);
    let e = read_geometry(s, p, &mut out)?;
    let f = skip_ws(s, e);
    if f != s.len() {
        return Err(TextError { position: f });
    }
    proof {
        let o = produced(geometry_spec(s@, p as int));
        assert(out@ =~= seq![1u8] + u32_bytes(srid, Endian::Little) + o);
    }
    match check(out.as_slice()) {
        Ok(()) => Ok(out),
        Err(_) => Err(TextError { position: 0 }),
    }
}

proof fn lemma_digits_value_mono(s: Seq<u8>, p: int, q: int, r: int)
    requires
        p <= q <= r,
        forall|i: int| p <= i < r ==> is_digit(#[trigger] s[i]),
    ensures
        digits_value(s, p, q) <= digits_value(s, p, r),
    decreases r - q,
{
    if q < r {
        lemma_digits_value_mono(s, p, q, r - 1);
    }
}

/// The unsigned decimal at `pos` and the position after it, where it has at
/// least one digit and fits in 32 bits.
fn read_u32_decimal(s: &[u8], pos: usize) -> (r: Result<(u32, usize), TextError>)
    requires
        pos <= s@.len(),
    ensures
        r is Ok <==> digits_to(s@, pos as int) != pos && digits_value(
            s@,
            pos as int,
            digits_to(s@, pos as int),
        ) <= u32::MAX,
        r matches Ok((v, p)) ==> p as int == digits_to(s@, pos as int) && v as nat
            == digits_value(s@, pos as int, p as int),
{
    let end = digits_end(s, pos);
    let mut p = pos;
    let mut v: u32 = 0;
    while p < end
        invariant
            pos <= p <= end,
            end as int == digits_to(s@, pos as int),
            end <= s@.len(),
            forall|i: int| pos <= i < end ==> is_digit(#[trigger] s@[i]),
            v as nat == digits_value(s@, pos as int, p as int),
        decreases end - p,
    {
        let d = (s[p] - 48) as u32;
        if v > (u32::MAX - d) / 10 {
            proof {
                lemma_digits_value_mono(s@, pos as int, p + 1, end as int);
            }
            return Err(TextError { position: p });
        }
        v = v * 10 + d;
        p = p + 1;
    }
    if p == pos {
        Err(TextError { position: pos })
    } else {
        Ok((v, p))
    }
}

impl Geob {
    /// Reads WKT text with its SRID prefix; the value is little-endian.
    pub fn from_text(input: &str) -> (r: Result<Geob, TextError>)
        ensures
            r matches Ok(g) ==> g.wf() && wkt_spec(input.spec_bytes()) == Some(g@),
            wkt_spec(input.spec_bytes()) is None ==> r is Err,
            wkt_spec(input.spec_bytes()) matches Some(b) && well_formed(b) ==> r is Ok,
    {
        let bytes = parse_wkt(input.as_bytes())?;
        Ok(Geob::new(bytes))
    }
}

} // verus!
