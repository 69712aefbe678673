//! Reading back what the printer writes: the reader's grammar read over
//! printed text, and the value it gives.
use vstd::prelude::*;
use crate::scalar::{Endian, lemma_u32_round_trip, u32_bytes, u64_at, u64_bytes};
use crate::wkt_read::{
    point_body_spec, ws_end, number_spec, coord_spec,
    at_byte, decimal_bits, digits_to, digits_value, is_digit, is_ws, kw_collection, kw_multi,
    kw_point, number_end_spec, wkt_spec, word_at_spec, keyword_spec, has_srid_prefix,
};
use crate::wkt_write::{coord_text, decimal_text, digit_char, geometry_text, number_text, wkt_text};
use crate::geob::{point_blob, srid_of};
use crate::layout::{blob_endian, body_of, well_formed};
use crate::equality::{same_value, shape_of};
use crate::projection::coords_of;
use crate::tree::is_nan;

verus! {

/// The bytes of an ASCII text.
pub open spec fn ascii_bytes(t: Seq<char>) -> Seq<u8> {
    t.map_values(|c: char| c as u8)
}

/// What is read back at `pre.len()` after `n` was stored there.
pub proof fn lemma_u64_round_trip(pre: Seq<u8>, n: u64, e: Endian, post: Seq<u8>)
    ensures
        u64_at(pre + u64_bytes(n, e) + post, e, pre.len() as int) == n as nat,
{
    let lo = (n % 0x100000000) as u32;
    let hi = (n / 0x100000000) as u32;
    let s = pre + u64_bytes(n, e) + post;
    match e {
        Endian::Little => {
            lemma_u32_round_trip(pre, lo, e, u32_bytes(hi, e) + post);
            assert(pre + u32_bytes(lo, e) + (u32_bytes(hi, e) + post) =~= s);
            lemma_u32_round_trip(pre + u32_bytes(lo, e), hi, e, post);
            assert(pre + u32_bytes(lo, e) + u32_bytes(hi, e) + post =~= s);
        },
        Endian::Big => {
            lemma_u32_round_trip(pre, hi, e, u32_bytes(lo, e) + post);
            assert(pre + u32_bytes(hi, e) + (u32_bytes(lo, e) + post) =~= s);
            lemma_u32_round_trip(pre + u32_bytes(hi, e), lo, e, post);
            assert(pre + u32_bytes(hi, e) + u32_bytes(lo, e) + post =~= s);
        },
    }
    assert(n == lo + 0x100000000 * hi) by (nonlinear_arith)
        requires
            lo == n % 0x100000000,
            hi == n / 0x100000000,
    ;
}

/// The digits of `n` are digits, and their value is `n`.
pub proof fn lemma_decimal_digits(n: nat)
    ensures
        decimal_text(n).len() >= 1,
        forall|i: int| 0 <= i < decimal_text(n).len() ==> is_digit(
            #[trigger] ascii_bytes(decimal_text(n))[i],
        ),
        digits_value(ascii_bytes(decimal_text(n)), 0, decimal_text(n).len() as int) == n,
    decreases n,
{
    let t = decimal_text(n);
    let b = ascii_bytes(t);
    if n < 10 {
        assert(b[0] == (48 + n) as u8);
        assert(digits_value(b, 0, 0) == 0);
    } else {
        lemma_decimal_digits(n / 10);
        let f = decimal_text(n / 10);
        let fb = ascii_bytes(f);
        assert(t =~= f + seq![digit_char(n % 10)]);
        assert(b =~= fb + seq![digit_char(n % 10) as u8]);
        assert(b[f.len() as int] == (48 + n % 10) as u8);
        lemma_digits_value_prefix(fb, seq![digit_char(n % 10) as u8], f.len() as int);
    }
}

/// The value of the digits in a prefix does not depend on what follows.
proof fn lemma_digits_value_prefix(a: Seq<u8>, b: Seq<u8>, q: int)
    requires
        0 <= q <= a.len(),
    ensures
        digits_value(a + b, 0, q) == digits_value(a, 0, q),
    decreases q,
{
    if q > 0 {
        lemma_digits_value_prefix(a, b, q - 1);
    }
}

/// `T` stands at `p` in `S`.
pub open spec fn stands_at(s: Seq<u8>, p: int, t: Seq<u8>) -> bool {
    0 <= p && p + t.len() <= s.len() && s.subrange(p, p + t.len()) == t
}

proof fn lemma_digits_to_local(s: Seq<u8>, p: int, t: Seq<u8>, k: int)
    requires
        stands_at(s, p, t),
        t.len() >= 1,
        !is_digit(t.last()),
        0 <= k <= t.len() - 1,
    ensures
        digits_to(s, p + k) == p + digits_to(t, k),
        k <= digits_to(t, k) <= t.len() - 1,
    decreases t.len() - k,
{
    assert(s[p + k] == t[k]);
    if is_digit(t[k]) {
        lemma_digits_to_local(s, p, t, k + 1);
    }
}

proof fn lemma_digits_value_local(s: Seq<u8>, p: int, t: Seq<u8>, k: int)
    requires
        stands_at(s, p, t),
        0 <= k <= t.len(),
    ensures
        digits_value(s, p, p + k) == digits_value(t, 0, k),
    decreases k,
{
    if k > 0 {
        assert(s[p + k - 1] == t[k - 1]);
        lemma_digits_value_local(s, p, t, k - 1);
    }
}

/// A number lexeme followed by a separator reads the same wherever it stands.
proof fn lemma_number_end_local(s: Seq<u8>, p: int, t: Seq<u8>)
    requires
        stands_at(s, p, t),
        t.len() >= 1,
        !is_digit(t.last()),
        t.last() != 101 && t.last() != 69 && t.last() != 46 && t.last() != 45,
        number_end_spec(t, 0) == Some(t.len() - 1),
    ensures
        number_end_spec(s, p) == Some(p + t.len() - 1),
{
    assert forall|k: int| 0 <= k < t.len() implies s[p + k] == t[k] by {
        assert(s.subrange(p, p + t.len())[k] == t[k]);
    }
    assert forall|k: int, c: u8| 0 <= k < t.len() implies at_byte(s, p + k, c) == at_byte(t, k, c) by {
        assert(s[p + k] == t[k]);
    }
    let p1 = if at_byte(t, 0, 45) {
        1int
    } else {
        0int
    };
    assert(at_byte(s, p, 45) == at_byte(t, 0, 45));
    if p1 > t.len() - 1 {
        assert(false);
    }
    lemma_digits_to_local(s, p, t, p1);
    let q = digits_to(t, p1);
    assert(at_byte(s, p + q, 46) == at_byte(t, q, 46));
    if at_byte(t, q, 46) {
        lemma_digits_to_local(s, p, t, q + 1);
    }
    let p2 = if at_byte(t, q, 46) {
        digits_to(t, q + 1)
    } else {
        q
    };
    assert(at_byte(s, p + p2, 101) == at_byte(t, p2, 101));
    assert(at_byte(s, p + p2, 69) == at_byte(t, p2, 69));
    if at_byte(t, p2, 101) || at_byte(t, p2, 69) {
        assert(at_byte(s, p + p2 + 1, 45) == at_byte(t, p2 + 1, 45));
        let k = if at_byte(t, p2 + 1, 45) {
            p2 + 2
        } else {
            p2 + 1
        };
        lemma_digits_to_local(s, p, t, k);
    }
}

proof fn lemma_digits_run(t: Seq<u8>, k: int, m: int)
    requires
        0 <= k <= m < t.len(),
        forall|i: int| k <= i < m ==> is_digit(#[trigger] t[i]),
        !is_digit(t[m]),
    ensures
        digits_to(t, k) == m,
    decreases m - k,
{
    if k < m {
        lemma_digits_run(t, k + 1, m);
    }
}

/// The printed form of the double with bit pattern `c` is ASCII, is a number
/// of the reader's grammar (before a blank and before `)`), and reads back as `c`.
pub open spec fn reads_back(c: u64) -> bool {
    let t = number_text(c);
    &&& t.len() >= 1
    &&& forall|i: int| 0 <= i < t.len() ==> (#[trigger] t[i] as u32) < 128
    &&& number_end_spec(ascii_bytes(t) + seq![32u8], 0) == Some(t.len() as int)
    &&& number_end_spec(ascii_bytes(t) + seq![41u8], 0) == Some(t.len() as int)
    &&& decimal_bits(ascii_bytes(t)) == Some(c)
}

/// The bytes of a printed point: `SRID=<d>;POINT(<x> <y>)`.
pub open spec fn point_text_bytes(dd: Seq<u8>, xx: Seq<u8>, yy: Seq<u8>) -> Seq<u8> {
    seq![83u8, 82, 73, 68, 61] + dd + seq![59u8] + seq![80u8, 79, 73, 78, 84, 40] + xx + seq![32u8]
        + yy + seq![41u8]
}

proof fn lemma_point_text_bytes(b: Seq<u8>)
    requires
        well_formed(b),
        body_of(b)[0] == 1,
    ensures
        ascii_bytes(wkt_text(b)) == point_text_bytes(
            ascii_bytes(decimal_text(srid_of(b))),
            ascii_bytes(number_text(u64_at(body_of(b), blob_endian(b), 1) as u64)),
            ascii_bytes(number_text(u64_at(body_of(b), blob_endian(b), 9) as u64)),
        ),
{
    let g = body_of(b);
    let e = blob_endian(b);
    reveal_strlit("SRID=");
    reveal_strlit(";");
    reveal_strlit("POINT(");
    reveal_strlit(" ");
    reveal_strlit(")");
    assert(geometry_text(g, e, 0) == "POINT("@ + coord_text(g, e, 1) + ")"@);
    assert(ascii_bytes(wkt_text(b)) =~= point_text_bytes(
        ascii_bytes(decimal_text(srid_of(b))),
        ascii_bytes(number_text(u64_at(g, e, 1) as u64)),
        ascii_bytes(number_text(u64_at(g, e, 9) as u64)),
    ));
}

proof fn lemma_point_text_srid(dd: Seq<u8>, xx: Seq<u8>, yy: Seq<u8>, sr: u32)
    requires
        dd.len() >= 1,
        forall|i: int| 0 <= i < dd.len() ==> is_digit(#[trigger] dd[i]),
        digits_value(dd, 0, dd.len() as int) == sr,
    ensures
        ({
            let s = point_text_bytes(dd, xx, yy);
            &&& has_srid_prefix(s)
            &&& digits_to(s, 5) == 5 + dd.len() as int
            &&& digits_value(s, 5, 5 + dd.len() as int) == sr
            &&& at_byte(s, 5 + dd.len() as int, 59)
        }),
{
    let s = point_text_bytes(dd, xx, yy);
    let td = dd + seq![59u8];
    assert(s.subrange(0, 5) =~= seq![83u8, 82, 73, 68, 61]);
    assert(s.subrange(5, 5 + td.len() as int) =~= td);
    assert forall|i: int| 0 <= i < dd.len() implies is_digit(#[trigger] td[i]) by {
        assert(td[i] == dd[i]);
    }
    lemma_digits_run(td, 0, dd.len() as int);
    lemma_digits_to_local(s, 5, td, 0);
    lemma_digits_value_local(s, 5, td, dd.len() as int);
    lemma_digits_value_prefix(dd, seq![59u8], dd.len() as int);
    assert(s[5 + dd.len() as int] == 59u8);
}

proof fn lemma_point_text_keyword(dd: Seq<u8>, xx: Seq<u8>, yy: Seq<u8>)
    ensures
        ({
            let s = point_text_bytes(dd, xx, yy);
            let d: int = 5 + dd.len() as int;
            &&& s[d + 1] == 80u8
            &&& keyword_spec(s, d + 1) == (1u8, d + 6)
            &&& s[d + 6] == 40u8
        }),
{
    let s = point_text_bytes(dd, xx, yy);
    let d: int = 5 + dd.len() as int;
    assert(s[d + 1] == 80u8);
    assert(!word_at_spec(s, d + 1, kw_collection())) by {
        if d + 1 + 18 <= s.len() {
            assert(s.subrange(d + 1, d + 19)[0] != kw_collection()[0]);
        }
    }
    assert(!word_at_spec(s, d + 1, kw_multi())) by {
        if d + 1 + 5 <= s.len() {
            assert(s.subrange(d + 1, d + 6)[0] != kw_multi()[0]);
        }
    }
    assert(s.subrange(d + 1, d + 6) =~= kw_point());
    assert(s[d + 6] == 40u8);
}

#[verifier::rlimit(60)]
proof fn lemma_point_text_body(dd: Seq<u8>, x: u64, y: u64)
    requires
        reads_back(x),
        reads_back(y),
    ensures
        ({
            let xx = ascii_bytes(number_text(x));
            let yy = ascii_bytes(number_text(y));
            let s = point_text_bytes(dd, xx, yy);
            let d: int = 5 + dd.len() as int;
            point_body_spec(s, d + 6) == Some(
                (
                    s.len() as int,
                    u64_bytes(x, Endian::Little) + u64_bytes(y, Endian::Little),
                ),
            )
        }),
{
    let xx = ascii_bytes(number_text(x));
    let yy = ascii_bytes(number_text(y));
    let s = point_text_bytes(dd, xx, yy);
    let d: int = 5 + dd.len() as int;
    let px: int = d + 7;
    let ex: int = px + xx.len();
    let ey: int = ex + 1 + yy.len();
    let tx = xx + seq![32u8];
    let ty = yy + seq![41u8];
    assert(s.len() == ey + 1);
    assert(s.subrange(px, px + tx.len()) =~= tx);
    assert(s.subrange(ex + 1, ex + 1 + ty.len()) =~= ty);
    lemma_number_end_local(s, px, tx);
    lemma_number_end_local(s, ex + 1, ty);
    assert(s[px] == xx[0] && tx[0] == xx[0]);
    assert(s[ex + 1] == yy[0] && ty[0] == yy[0]);
    assert(s.subrange(px, ex) =~= xx);
    assert(s.subrange(ex + 1, ey) =~= yy);
    assert(s[d + 6] == 40u8);
    assert(s[ex] == 32u8);
    assert(s[ey] == 41u8);
    if is_ws(tx[0]) {
        assert(digits_to(tx, 0) == 0);
        assert(number_end_spec(tx, 0) is None);
    }
    if is_ws(ty[0]) {
        assert(digits_to(ty, 0) == 0);
        assert(number_end_spec(ty, 0) is None);
    }
    assert(ws_end(s, px) == px);
    assert(number_spec(s, px) == Some((ex, u64_bytes(x, Endian::Little))));
    assert(ws_end(s, ex + 1) == ex + 1);
    assert(ws_end(s, ex) == ex + 1);
    assert(number_spec(s, ex + 1) == Some((ey, u64_bytes(y, Endian::Little))));
    assert(coord_spec(s, px) == Some(
        (ey, u64_bytes(x, Endian::Little) + u64_bytes(y, Endian::Little)),
    ));
    assert(ws_end(s, ey) == ey);
}

/// For a point whose two coordinates print as numbers that read back, the
/// reader turns the printed text into the little-endian point with the same
/// SRID and coordinates; where neither coordinate is NaN that value equals
/// `b`, whatever the byte order of `b`.
pub proof fn lemma_point_text_round_trip(b: Seq<u8>)
    requires
        well_formed(b),
        body_of(b)[0] == 1,
        reads_back(u64_at(body_of(b), blob_endian(b), 1) as u64),
        reads_back(u64_at(body_of(b), blob_endian(b), 9) as u64),
    ensures
        ({
            let x = u64_at(body_of(b), blob_endian(b), 1) as u64;
            let y = u64_at(body_of(b), blob_endian(b), 9) as u64;
            let p = point_blob(srid_of(b) as u32, x, y);
            &&& wkt_spec(ascii_bytes(wkt_text(b))) == Some(p)
            &&& well_formed(p)
            &&& !is_nan(x) && !is_nan(y) ==> same_value(b, p)
        }),
{
    let g = body_of(b);
    let e = blob_endian(b);
    let x = u64_at(g, e, 1) as u64;
    let y = u64_at(g, e, 9) as u64;
    let sr = srid_of(b) as u32;
    assert(srid_of(b) <= u32::MAX);
    let dd = ascii_bytes(decimal_text(sr as nat));
    let xx = ascii_bytes(number_text(x));
    let yy = ascii_bytes(number_text(y));
    lemma_point_text_bytes(b);
    let s = ascii_bytes(wkt_text(b));
    assert(s == point_text_bytes(dd, xx, yy));
    lemma_decimal_digits(sr as nat);
    lemma_point_text_srid(dd, xx, yy, sr);
    lemma_point_text_keyword(dd, xx, yy);
    lemma_point_text_body(dd, x, y);
    let p = point_blob(sr, x, y);
    assert(seq![1u8] + u32_bytes(sr, Endian::Little) + (seq![1u8] + (u64_bytes(x, Endian::Little)
        + u64_bytes(y, Endian::Little))) =~= p);
    assert(wkt_spec(s) == Some(p));
    lemma_point_blob(sr, x, y);
    if !is_nan(x) && !is_nan(y) {
        assert(shape_of(b) == shape_of(p));
        assert(coords_of(b) =~= seq![(x, y)]);
    }
}

proof fn lemma_point_blob(sr: u32, x: u64, y: u64)
    ensures
        well_formed(point_blob(sr, x, y)),
        srid_of(point_blob(sr, x, y)) == sr,
        body_of(point_blob(sr, x, y))[0] == 1,
        coords_of(point_blob(sr, x, y)) == seq![(x, y)],
{
    let p = point_blob(sr, x, y);
    let le = Endian::Little;
    let pg = body_of(p);
    crate::scalar::lemma_u64_bytes_len(x, le);
    crate::scalar::lemma_u64_bytes_len(y, le);
    crate::scalar::lemma_u32_bytes_len(sr, le);
    assert(pg =~= seq![1u8] + u64_bytes(x, le) + u64_bytes(y, le));
    assert(pg.len() == 17);
    lemma_u32_round_trip(seq![1u8], sr, le, pg);
    assert(seq![1u8] + u32_bytes(sr, le) + pg =~= p);
    lemma_u64_round_trip(seq![1u8], x, le, u64_bytes(y, le));
    lemma_u64_round_trip(seq![1u8] + u64_bytes(x, le), y, le, Seq::empty());
    assert(seq![1u8] + u64_bytes(x, le) + u64_bytes(y, le) + Seq::<u8>::empty() =~= pg);
    assert(coords_of(p) =~= seq![(x, y)]);
}

} // verus!
