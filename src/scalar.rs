//! Endian-aware reading and writing of the scalars that make up a blob.
use vstd::prelude::*;

verus! {

/// Byte order of every multi-byte scalar that follows the marker byte.
#[derive(Clone, Copy, Debug, PartialEq, Eq, Structural)]
pub enum Endian {
    Big,
    Little,
}

/// The marker byte that announces a byte order: `0` big, `1` little.
pub open spec fn endian_of(b: u8) -> Option<Endian> {
    if b == 0 {
        Some(Endian::Big)
    } else if b == 1 {
        Some(Endian::Little)
    } else {
        None
    }
}

pub open spec fn endian_byte(e: Endian) -> u8 {
    match e {
        Endian::Big => 0,
        Endian::Little => 1,
    }
}

/// The unsigned 32-bit value stored at `i..i + 4`.
pub open spec fn u32_at(b: Seq<u8>, e: Endian, i: int) -> nat {
    match e {
        Endian::Little => (b[i] + 0x100 * b[i + 1] + 0x10000 * b[i + 2] + 0x1000000 * b[i
            + 3]) as nat,
        Endian::Big => (b[i + 3] + 0x100 * b[i + 2] + 0x10000 * b[i + 1] + 0x1000000 * b[i]) as nat,
    }
}

/// The unsigned 64-bit value stored at `i..i + 8`: the bit pattern of a coordinate.
pub open spec fn u64_at(b: Seq<u8>, e: Endian, i: int) -> nat {
    match e {
        Endian::Little => u32_at(b, e, i) + 0x100000000 * u32_at(b, e, i + 4),
        Endian::Big => u32_at(b, e, i + 4) + 0x100000000 * u32_at(b, e, i),
    }
}

/// The four bytes that store `n` in byte order `e`.
pub open spec fn u32_bytes(n: u32, e: Endian) -> Seq<u8> {
    let b0 = (n % 0x100) as u8;
    let b1 = ((n / 0x100) % 0x100) as u8;
    let b2 = ((n / 0x10000) % 0x100) as u8;
    let b3 = (n / 0x1000000) as u8;
    match e {
        Endian::Little => seq![b0, b1, b2, b3],
        Endian::Big => seq![b3, b2, b1, b0],
    }
}

/// The eight bytes that store `n` in byte order `e`.
pub open spec fn u64_bytes(n: u64, e: Endian) -> Seq<u8> {
    let lo = (n % 0x100000000) as u32;
    let hi = (n / 0x100000000) as u32;
    match e {
        Endian::Little => u32_bytes(lo, e) + u32_bytes(hi, e),
        Endian::Big => u32_bytes(hi, e) + u32_bytes(lo, e),
    }
}

/// Reads the byte order marker.
pub fn endian_from_byte(b: u8) -> (r: Option<Endian>)
    ensures
        r == endian_of(b),
{
    if b == 0 {
        Some(Endian::Big)
    } else if b == 1 {
        Some(Endian::Little)
    } else {
        None
    }
}

/// Reads a `u32` at `i` in byte order `e`.
pub fn read_u32(b: &[u8], i: usize, e: Endian) -> (r: u32)
    requires
        i + 4 <= b@.len(),
    ensures
        r as nat == u32_at(b@, e, i as int),
{
    let b0 = b[i] as u32;
    let b1 = b[i + 1] as u32;
    let b2 = b[i + 2] as u32;
    let b3 = b[i + 3] as u32;
    match e {
        Endian::Little => b0 + 0x100 * b1 + 0x10000 * b2 + 0x1000000 * b3,
        Endian::Big => b3 + 0x100 * b2 + 0x10000 * b1 + 0x1000000 * b0,
    }
}

/// Reads the `u64` at `i` in byte order `e`: a coordinate's bit pattern.
pub fn read_u64(b: &[u8], i: usize, e: Endian) -> (r: u64)
    requires
        i + 8 <= b@.len(),
    ensures
        r as nat == u64_at(b@, e, i as int),
{
    let len = b.len();
    assert(i + 4 <= len);
    let lo = read_u32(b, i, e) as u64;
    let hi = read_u32(b, i + 4, e) as u64;
    match e {
        Endian::Little => lo + 0x100000000 * hi,
        Endian::Big => hi + 0x100000000 * lo,
    }
}

proof fn lemma_u32_bytes(n: u32, e: Endian)
    ensures
        u32_bytes(n, e).len() == 4,
        u32_at(u32_bytes(n, e), e, 0) == n as nat,
{
    let b0 = (n % 0x100) as u8;
    let b1 = ((n / 0x100) % 0x100) as u8;
    let b2 = ((n / 0x10000) % 0x100) as u8;
    let b3 = (n / 0x1000000) as u8;
    assert(b0 + 0x100 * b1 + 0x10000 * b2 + 0x1000000 * b3 == n) by (nonlinear_arith)
        requires
            b0 == n % 0x100,
            b1 == (n / 0x100) % 0x100,
            b2 == (n / 0x10000) % 0x100,
            b3 == n / 0x1000000,
            n < 0x100000000,
    ;
}

pub proof fn lemma_u32_bytes_len(n: u32, e: Endian)
    ensures
        u32_bytes(n, e).len() == 4,
{
}

pub proof fn lemma_u64_bytes_len(n: u64, e: Endian)
    ensures
        u64_bytes(n, e).len() == 8,
{
}

/// Appends `n` as four bytes in byte order `e`.
pub fn push_u32(out: &mut Vec<u8>, n: u32, e: Endian)
    ensures
        final(out)@ == old(out)@ + u32_bytes(n, e),
{
    let b0 = (n % 0x100) as u8;
    let b1 = ((n / 0x100) % 0x100) as u8;
    let b2 = ((n / 0x10000) % 0x100) as u8;
    let b3 = (n / 0x1000000) as u8;
    match e {
        Endian::Little => {
            out.push(b0);
            out.push(b1);
            out.push(b2);
            out.push(b3);
        },
        Endian::Big => {
            out.push(b3);
            out.push(b2);
            out.push(b1);
            out.push(b0);
        },
    }
    assert(final(out)@ =~= old(out)@ + u32_bytes(n, e));
}

/// Appends `n` as eight bytes in byte order `e`.
pub fn push_u64(out: &mut Vec<u8>, n: u64, e: Endian)
    ensures
        final(out)@ == old(out)@ + u64_bytes(n, e),
{
    let lo = (n % 0x100000000) as u32;
    let hi = (n / 0x100000000) as u32;
    match e {
        Endian::Little => {
            push_u32(out, lo, e);
            push_u32(out, hi, e);
        },
        Endian::Big => {
            push_u32(out, hi, e);
            push_u32(out, lo, e);
        },
    }
    assert(final(out)@ =~= old(out)@ + u64_bytes(n, e));
}

/// Overwrites the four bytes at `i` with `n` in byte order `e`.
pub fn write_u32_at(out: &mut Vec<u8>, i: usize, n: u32, e: Endian)
    requires
        i + 4 <= old(out)@.len(),
    ensures
        final(out)@ == old(out)@.subrange(0, i as int) + u32_bytes(n, e) + old(out)@.subrange(
            i + 4,
            old(out)@.len() as int,
        ),
{
    let b0 = (n % 0x100) as u8;
    let b1 = ((n / 0x100) % 0x100) as u8;
    let b2 = ((n / 0x10000) % 0x100) as u8;
    let b3 = (n / 0x1000000) as u8;
    let len = out.len();
    assert(i + 4 <= len);
    match e {
        Endian::Little => {
            out.set(i, b0);
            out.set(i + 1, b1);
            out.set(i + 2, b2);
            out.set(i + 3, b3);
        },
        Endian::Big => {
            out.set(i, b3);
            out.set(i + 1, b2);
            out.set(i + 2, b1);
            out.set(i + 3, b0);
        },
    }
    assert(final(out)@ =~= old(out)@.subrange(0, i as int) + u32_bytes(n, e) + old(
        out,
    )@.subrange(i + 4, old(out)@.len() as int));
}

/// What is read back at `i` after `n` was stored there.
pub proof fn lemma_u32_round_trip(pre: Seq<u8>, n: u32, e: Endian, post: Seq<u8>)
    ensures
        u32_at(pre + u32_bytes(n, e) + post, e, pre.len() as int) == n as nat,
{
    lemma_u32_bytes(n, e);
    let s = pre + u32_bytes(n, e) + post;
    let i = pre.len() as int;
    assert(s[i] == u32_bytes(n, e)[0]);
    assert(s[i + 1] == u32_bytes(n, e)[1]);
    assert(s[i + 2] == u32_bytes(n, e)[2]);
    assert(s[i + 3] == u32_bytes(n, e)[3]);
}

} // verus!
