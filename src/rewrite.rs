//! The bytes of a geometry body whose coordinate pairs are replaced, in walk
//! order, while its type bytes and counts are kept; and the proof that such a
//! body has the same layout, kinds and counts as the one it came from.
use vstd::prelude::*;
use crate::layout::{coords_end, geometry_end, members_from, polygons_from, rings_end, rings_from};
use crate::projection::{
    geometry_offsets, members_offsets, pair_at, polygons_offsets, rings_offsets, seq_offsets,
};
use crate::equality::{geometry_shape, members_shape, polygons_shape, rings_shape};
use crate::round_trip::lemma_u64_round_trip;
use crate::scalar::{Endian, lemma_u64_bytes_len, push_u64, read_u32, u32_at, u64_at, u64_bytes};

verus! {

/// One pair in byte order `e`.
pub open spec fn pair_bytes(p: (u64, u64), e: Endian) -> Seq<u8> {
    u64_bytes(p.0, e) + u64_bytes(p.1, e)
}

/// The pairs `ps[k..k + n]` in byte order `e`.
pub open spec fn new_pairs(ps: Seq<(u64, u64)>, k: int, n: nat, e: Endian) -> Seq<u8>
    decreases n,
{
    if n == 0 {
        Seq::empty()
    } else {
        new_pairs(ps, k, (n - 1) as nat, e) + pair_bytes(ps[k + n - 1], e)
    }
}

/// The coordinate sequence at `pos` of `g` with its pairs taken from `ps[k..]`.
pub open spec fn rw_seq(g: Seq<u8>, e: Endian, pos: int, ps: Seq<(u64, u64)>, k: int) -> Seq<u8> {
    g.subrange(pos, pos + 4) + new_pairs(ps, k, u32_at(g, e, pos), e)
}

/// `n` coordinate sequences from `pos` on, pairs from `ps[k..]`.
pub open spec fn rw_rings(g: Seq<u8>, e: Endian, pos: int, n: nat, ps: Seq<(u64, u64)>, k: int) -> Seq<
    u8,
>
    decreases n,
{
    if n == 0 {
        Seq::empty()
    } else {
        match coords_end(g, e, pos) {
            Some(p) => rw_seq(g, e, pos, ps, k) + rw_rings(
                g,
                e,
                p,
                (n - 1) as nat,
                ps,
                k + u32_at(g, e, pos),
            ),
            None => Seq::empty(),
        }
    }
}

/// `n` polygon bodies from `pos` on, pairs from `ps[k..]`.
pub open spec fn rw_polygons(
    g: Seq<u8>,
    e: Endian,
    pos: int,
    n: nat,
    ps: Seq<(u64, u64)>,
    k: int,
) -> Seq<u8>
    decreases n,
{
    if n == 0 {
        Seq::empty()
    } else {
        match rings_end(g, e, pos) {
            Some(p) => g.subrange(pos, pos + 4) + rw_rings(g, e, pos + 4, u32_at(g, e, pos), ps, k)
                + rw_polygons(
                g,
                e,
                p,
                (n - 1) as nat,
                ps,
                k + rings_offsets(g, e, pos + 4, u32_at(g, e, pos)).len(),
            ),
            None => Seq::empty(),
        }
    }
}

/// The tagged geometry at `pos`, pairs from `ps[k..]`.
pub open spec fn rw_geometry(g: Seq<u8>, e: Endian, pos: int, ps: Seq<(u64, u64)>, k: int) -> Seq<
    u8,
>
    decreases g.len() - pos, 0int,
{
    if 0 <= pos && pos < g.len() {
        let t = g[pos];
        if t == 1 {
            seq![1u8] + pair_bytes(ps[k], e)
        } else if t == 2 || t == 4 {
            seq![t] + rw_seq(g, e, pos + 1, ps, k)
        } else if t == 3 || t == 5 {
            seq![t] + g.subrange(pos + 1, pos + 5) + rw_rings(
                g,
                e,
                pos + 5,
                u32_at(g, e, pos + 1),
                ps,
                k,
            )
        } else if t == 6 {
            seq![t] + g.subrange(pos + 1, pos + 5) + rw_polygons(
                g,
                e,
                pos + 5,
                u32_at(g, e, pos + 1),
                ps,
                k,
            )
        } else if t == 7 && pos + 5 <= g.len() {
            seq![t] + g.subrange(pos + 1, pos + 5) + rw_members(
                g,
                e,
                pos + 5,
                u32_at(g, e, pos + 1),
                ps,
                k,
            )
        } else {
            Seq::empty()
        }
    } else {
        Seq::empty()
    }
}

/// `n` tagged geometries from `pos` on, pairs from `ps[k..]`.
pub open spec fn rw_members(g: Seq<u8>, e: Endian, pos: int, n: nat, ps: Seq<(u64, u64)>, k: int) -> Seq<
    u8,
>
    decreases g.len() - pos, 1int, n,
{
    if n == 0 {
        Seq::empty()
    } else if 0 <= pos && pos < g.len() {
        match geometry_end(g, e, pos) {
            Some(p) => if pos < p && p <= g.len() {
                rw_geometry(g, e, pos, ps, k) + rw_members(
                    g,
                    e,
                    p,
                    (n - 1) as nat,
                    ps,
                    k + geometry_offsets(g, e, pos).len(),
                )
            } else {
                Seq::empty()
            },
            None => Seq::empty(),
        }
    } else {
        Seq::empty()
    }
}

proof fn lemma_new_pairs(ps: Seq<(u64, u64)>, k: int, n: nat, e: Endian)
    ensures
        new_pairs(ps, k, n, e).len() == 16 * n,
        forall|j: int|
            0 <= j < n ==> #[trigger] new_pairs(ps, k, n, e).subrange(16 * j, 16 * j + 16)
                == pair_bytes(ps[k + j], e),
    decreases n,
{
    if n > 0 {
        lemma_new_pairs(ps, k, (n - 1) as nat, e);
        let a = new_pairs(ps, k, (n - 1) as nat, e);
        let b = pair_bytes(ps[k + n - 1], e);
        lemma_u64_bytes_len(ps[k + n - 1].0, e);
        lemma_u64_bytes_len(ps[k + n - 1].1, e);
        assert forall|j: int| 0 <= j < n implies #[trigger] new_pairs(ps, k, n, e).subrange(
            16 * j,
            16 * j + 16,
        ) == pair_bytes(ps[k + j], e) by {
            if j < n - 1 {
                assert((a + b).subrange(16 * j, 16 * j + 16) =~= a.subrange(16 * j, 16 * j + 16));
            } else {
                assert((a + b).subrange(16 * j, 16 * j + 16) =~= b);
            }
        }
    }
}

/// The value at `o` depends on the eight bytes there alone.
proof fn lemma_u64_window(s: Seq<u8>, e: Endian, o: int, w: Seq<u8>)
    requires
        0 <= o,
        o + 8 <= s.len(),
        w.len() == 8,
        s.subrange(o, o + 8) == w,
    ensures
        u64_at(s, e, o) == u64_at(w, e, 0),
{
    assert forall|i: int| 0 <= i < 8 implies s[o + i] == w[i] by {
        assert(s.subrange(o, o + 8)[i] == s[o + i]);
    }
}

proof fn lemma_u64_bytes_read(n: u64, e: Endian)
    ensures
        u64_at(u64_bytes(n, e), e, 0) == n,
{
    lemma_u64_round_trip(Seq::empty(), n, e, Seq::empty());
    assert(Seq::<u8>::empty() + u64_bytes(n, e) + Seq::<u8>::empty() =~= u64_bytes(n, e));
}

/// The pair whose bytes stand at `o` reads back as that pair.
proof fn lemma_pair_at(s: Seq<u8>, e: Endian, o: int, p: (u64, u64))
    requires
        0 <= o,
        o + 16 <= s.len(),
        s.subrange(o, o + 16) == pair_bytes(p, e),
    ensures
        pair_at(s, e, o) == p,
{
    lemma_u64_bytes_len(p.0, e);
    lemma_u64_bytes_len(p.1, e);
    assert(s.subrange(o, o + 8) =~= s.subrange(o, o + 16).subrange(0, 8));
    assert(s.subrange(o + 8, o + 16) =~= s.subrange(o, o + 16).subrange(8, 16));
    assert(pair_bytes(p, e).subrange(0, 8) =~= u64_bytes(p.0, e));
    assert(pair_bytes(p, e).subrange(8, 16) =~= u64_bytes(p.1, e));
    lemma_u64_window(s, e, o, u64_bytes(p.0, e));
    lemma_u64_window(s, e, o + 8, u64_bytes(p.1, e));
    lemma_u64_bytes_read(p.0, e);
    lemma_u64_bytes_read(p.1, e);
}

/// Equal bytes in `pos..pos + 4` give the same count.
proof fn lemma_count_same(s: Seq<u8>, g: Seq<u8>, e: Endian, pos: int)
    requires
        0 <= pos,
        pos + 4 <= s.len(),
        pos + 4 <= g.len(),
        s.subrange(pos, pos + 4) == g.subrange(pos, pos + 4),
    ensures
        u32_at(s, e, pos) == u32_at(g, e, pos),
{
    assert(s[pos] == s.subrange(pos, pos + 4)[0]);
    assert(s[pos + 1] == s.subrange(pos, pos + 4)[1]);
    assert(s[pos + 2] == s.subrange(pos, pos + 4)[2]);
    assert(s[pos + 3] == s.subrange(pos, pos + 4)[3]);
    assert(g[pos] == g.subrange(pos, pos + 4)[0]);
    assert(g[pos + 1] == g.subrange(pos, pos + 4)[1]);
    assert(g[pos + 2] == g.subrange(pos, pos + 4)[2]);
    assert(g[pos + 3] == g.subrange(pos, pos + 4)[3]);
}

proof fn lemma_rw_seq_pair(
    g: Seq<u8>,
    e: Endian,
    pos: int,
    ps: Seq<(u64, u64)>,
    k: int,
    s: Seq<u8>,
    q: int,
    j: int,
)
    requires
        0 <= pos,
        q == pos + 4 + 16 * u32_at(g, e, pos),
        q <= s.len(),
        0 <= k,
        0 <= j < u32_at(g, e, pos),
        k + u32_at(g, e, pos) <= ps.len(),
        s.subrange(pos + 4, q) == new_pairs(ps, k, u32_at(g, e, pos), e),
    ensures
        pair_at(s, e, pos + 4 + 16 * j) == ps[k + j],
{
    let n = u32_at(g, e, pos);
    lemma_new_pairs(ps, k, n, e);
    assert(new_pairs(ps, k, n, e).subrange(16 * j, 16 * j + 16) == pair_bytes(ps[k + j], e));
    assert(s.subrange(pos + 4 + 16 * j, pos + 4 + 16 * j + 16) =~= s.subrange(pos + 4, q).subrange(
        16 * j,
        16 * j + 16,
    ));
    lemma_pair_at(s, e, pos + 4 + 16 * j, ps[k + j]);
}

/// A rewritten coordinate sequence keeps its count and end, and holds the new pairs.
proof fn lemma_rw_seq(g: Seq<u8>, e: Endian, pos: int, ps: Seq<(u64, u64)>, k: int, s: Seq<u8>)
    requires
        coords_end(g, e, pos) is Some,
        s.len() == g.len(),
        0 <= k,
        k + u32_at(g, e, pos) <= ps.len(),
        s.subrange(pos, pos + rw_seq(g, e, pos, ps, k).len()) == rw_seq(g, e, pos, ps, k),
    ensures
        rw_seq(g, e, pos, ps, k).len() == coords_end(g, e, pos)->0 - pos,
        coords_end(s, e, pos) == coords_end(g, e, pos),
        u32_at(s, e, pos) == u32_at(g, e, pos),
        forall|j: int|
            0 <= j < u32_at(g, e, pos) ==> #[trigger] pair_at(s, e, pos + 4 + 16 * j) == ps[k + j],
{
    let n = u32_at(g, e, pos);
    let q = pos + 4 + 16 * n;
    lemma_new_pairs(ps, k, n, e);
    let w = rw_seq(g, e, pos, ps, k);
    assert(w.len() == 4 + 16 * n);
    assert(s.subrange(pos, pos + 4) =~= w.subrange(0, 4));
    assert(w.subrange(0, 4) =~= g.subrange(pos, pos + 4));
    lemma_count_same(s, g, e, pos);
    assert(s.subrange(pos + 4, q) =~= w.subrange(4, 4 + 16 * n as int));
    assert(w.subrange(4, 4 + 16 * n as int) =~= new_pairs(ps, k, n, e));
    assert forall|j: int| 0 <= j < n implies #[trigger] pair_at(s, e, pos + 4 + 16 * j) == ps[k + j] by {
        lemma_rw_seq_pair(g, e, pos, ps, k, s, q, j);
    }
}

proof fn lemma_len_seq(g: Seq<u8>, e: Endian, pos: int, ps: Seq<(u64, u64)>, k: int)
    requires
        coords_end(g, e, pos) is Some,
    ensures
        rw_seq(g, e, pos, ps, k).len() == coords_end(g, e, pos)->0 - pos,
{
    lemma_new_pairs(ps, k, u32_at(g, e, pos), e);
}

proof fn lemma_len_rings(g: Seq<u8>, e: Endian, pos: int, n: nat, ps: Seq<(u64, u64)>, k: int)
    requires
        rings_from(g, e, pos, n) is Some,
    ensures
        rw_rings(g, e, pos, n, ps, k).len() == rings_from(g, e, pos, n)->0 - pos,
    decreases n,
{
    if n > 0 {
        let p = coords_end(g, e, pos)->0;
        lemma_len_seq(g, e, pos, ps, k);
        lemma_len_rings(g, e, p, (n - 1) as nat, ps, k + u32_at(g, e, pos));
    }
}

proof fn lemma_len_polygons(g: Seq<u8>, e: Endian, pos: int, n: nat, ps: Seq<(u64, u64)>, k: int)
    requires
        polygons_from(g, e, pos, n) is Some,
    ensures
        rw_polygons(g, e, pos, n, ps, k).len() == polygons_from(g, e, pos, n)->0 - pos,
    decreases n,
{
    if n > 0 {
        let p = rings_end(g, e, pos)->0;
        lemma_len_rings(g, e, pos + 4, u32_at(g, e, pos), ps, k);
        lemma_len_polygons(
            g,
            e,
            p,
            (n - 1) as nat,
            ps,
            k + rings_offsets(g, e, pos + 4, u32_at(g, e, pos)).len(),
        );
    }
}

proof fn lemma_len_geometry(g: Seq<u8>, e: Endian, pos: int, ps: Seq<(u64, u64)>, k: int)
    requires
        geometry_end(g, e, pos) is Some,
    ensures
        rw_geometry(g, e, pos, ps, k).len() == geometry_end(g, e, pos)->0 - pos,
    decreases g.len() - pos, 0int,
{
    let t = g[pos];
    if t == 1 {
        lemma_u64_bytes_len(ps[k].0, e);
        lemma_u64_bytes_len(ps[k].1, e);
    } else if t == 2 || t == 4 {
        lemma_len_seq(g, e, pos + 1, ps, k);
    } else if t == 3 || t == 5 {
        lemma_len_rings(g, e, pos + 5, u32_at(g, e, pos + 1), ps, k);
    } else if t == 6 {
        lemma_len_polygons(g, e, pos + 5, u32_at(g, e, pos + 1), ps, k);
    } else {
        lemma_len_members(g, e, pos + 5, u32_at(g, e, pos + 1), ps, k);
    }
}

proof fn lemma_len_members(g: Seq<u8>, e: Endian, pos: int, n: nat, ps: Seq<(u64, u64)>, k: int)
    requires
        members_from(g, e, pos, n) is Some,
    ensures
        rw_members(g, e, pos, n, ps, k).len() == members_from(g, e, pos, n)->0 - pos,
    decreases g.len() - pos, 1int, n,
{
    if n > 0 {
        let p = geometry_end(g, e, pos)->0;
        lemma_len_geometry(g, e, pos, ps, k);
        lemma_len_members(g, e, p, (n - 1) as nat, ps, k + geometry_offsets(g, e, pos).len());
    }
}

/// The new pairs stand at the offsets of `offs`, starting with `ps[k]`.
#[verifier::opaque]
pub open spec fn holds_pairs(s: Seq<u8>, e: Endian, offs: Seq<int>, ps: Seq<(u64, u64)>, k: int) -> bool {
    forall|j: int| 0 <= j < offs.len() ==> #[trigger] pair_at(s, e, offs[j]) == ps[k + j]
}

proof fn lemma_holds_concat(
    s: Seq<u8>,
    e: Endian,
    a: Seq<int>,
    b: Seq<int>,
    ps: Seq<(u64, u64)>,
    k: int,
)
    requires
        holds_pairs(s, e, a, ps, k),
        holds_pairs(s, e, b, ps, k + a.len()),
    ensures
        holds_pairs(s, e, a + b, ps, k),
{
    reveal(holds_pairs);
    assert forall|j: int| 0 <= j < (a + b).len() implies #[trigger] pair_at(s, e, (a + b)[j]) == ps[k + j] by {
        if j < a.len() {
            assert((a + b)[j] == a[j]);
        } else {
            assert((a + b)[j] == b[j - a.len()]);
            assert(pair_at(s, e, b[j - a.len()]) == ps[k + a.len() + (j - a.len())]);
        }
    }
}

proof fn lemma_split(s: Seq<u8>, pos: int, p: int, q: int, w1: Seq<u8>, w2: Seq<u8>)
    requires
        0 <= pos <= p <= q <= s.len(),
        w1.len() == p - pos,
        s.subrange(pos, q) == w1 + w2,
    ensures
        s.subrange(pos, p) == w1,
        s.subrange(p, q) == w2,
{
    assert(s.subrange(pos, q).len() == q - pos);
    assert(w2.len() == q - p);
    assert(s.subrange(pos, p) =~= s.subrange(pos, q).subrange(0, p - pos));
    assert(s.subrange(p, q) =~= s.subrange(pos, q).subrange(p - pos, q - pos));
    assert((w1 + w2).subrange(0, p - pos) =~= w1);
    assert((w1 + w2).subrange(p - pos, q - pos) =~= w2);
}

proof fn lemma_seq_holds(g: Seq<u8>, e: Endian, pos: int, ps: Seq<(u64, u64)>, k: int, s: Seq<u8>)
    requires
        coords_end(g, e, pos) is Some,
        s.len() == g.len(),
        0 <= k,
        k + u32_at(g, e, pos) <= ps.len(),
        s.subrange(pos, coords_end(g, e, pos)->0) == rw_seq(g, e, pos, ps, k),
    ensures
        coords_end(s, e, pos) == coords_end(g, e, pos),
        u32_at(s, e, pos) == u32_at(g, e, pos),
        seq_offsets(s, e, pos) == seq_offsets(g, e, pos),
        holds_pairs(s, e, seq_offsets(g, e, pos), ps, k),
{
    lemma_len_seq(g, e, pos, ps, k);
    lemma_rw_seq(g, e, pos, ps, k, s);
    assert(seq_offsets(s, e, pos) =~= seq_offsets(g, e, pos));
    reveal(holds_pairs);
}

proof fn lemma_rings_step(x: Seq<u8>, e: Endian, pos: int, n: nat)
    requires
        n > 0,
        coords_end(x, e, pos) is Some,
    ensures
        rings_from(x, e, pos, n) == rings_from(x, e, coords_end(x, e, pos)->0, (n - 1) as nat),
        rings_shape(x, e, pos, n) == seq![u32_at(x, e, pos) as u32] + rings_shape(
            x,
            e,
            coords_end(x, e, pos)->0,
            (n - 1) as nat,
        ),
        rings_offsets(x, e, pos, n) == seq_offsets(x, e, pos) + rings_offsets(
            x,
            e,
            coords_end(x, e, pos)->0,
            (n - 1) as nat,
        ),
{
}

#[verifier::rlimit(100)]
proof fn lemma_rw_rings(
    g: Seq<u8>,
    e: Endian,
    pos: int,
    n: nat,
    ps: Seq<(u64, u64)>,
    k: int,
    s: Seq<u8>,
)
    requires
        rings_from(g, e, pos, n) is Some,
        s.len() == g.len(),
        0 <= k,
        k + rings_offsets(g, e, pos, n).len() <= ps.len(),
        s.subrange(pos, rings_from(g, e, pos, n)->0) == rw_rings(g, e, pos, n, ps, k),
    ensures
        rings_from(s, e, pos, n) == rings_from(g, e, pos, n),
        rings_shape(s, e, pos, n) == rings_shape(g, e, pos, n),
        rings_offsets(s, e, pos, n) == rings_offsets(g, e, pos, n),
        holds_pairs(s, e, rings_offsets(g, e, pos, n), ps, k),
    decreases n,
{
    if n > 0 {
        let p = coords_end(g, e, pos)->0;
        let q = rings_from(g, e, pos, n)->0;
        let c = u32_at(g, e, pos);
        crate::layout::lemma_rings_from_bound(g, e, pos, n);
        crate::layout::lemma_rings_from_bound(g, e, p, (n - 1) as nat);
        lemma_len_seq(g, e, pos, ps, k);
        lemma_rings_step(g, e, pos, n);
        lemma_split(s, pos, p, q, rw_seq(g, e, pos, ps, k), rw_rings(g, e, p, (n - 1) as nat, ps, k + c));
        lemma_seq_holds(g, e, pos, ps, k, s);
        lemma_rw_rings(g, e, p, (n - 1) as nat, ps, k + c, s);
        lemma_rings_step(s, e, pos, n);
        lemma_holds_concat(s, e, seq_offsets(g, e, pos), rings_offsets(g, e, p, (n - 1) as nat), ps, k);
    } else {
        reveal(holds_pairs);
    }
}

proof fn lemma_polygons_from_bound(g: Seq<u8>, e: Endian, pos: int, n: nat)
    requires
        polygons_from(g, e, pos, n) is Some,
    ensures
        pos <= polygons_from(g, e, pos, n)->0 <= g.len(),
    decreases n,
{
    if n > 0 {
        crate::layout::lemma_rings_from_bound(g, e, pos + 4, u32_at(g, e, pos));
        lemma_polygons_from_bound(g, e, rings_end(g, e, pos)->0, (n - 1) as nat);
    }
}

proof fn lemma_polygons_step(x: Seq<u8>, e: Endian, pos: int, n: nat)
    requires
        n > 0,
        rings_end(x, e, pos) is Some,
    ensures
        polygons_from(x, e, pos, n) == polygons_from(x, e, rings_end(x, e, pos)->0, (n - 1) as nat),
        polygons_shape(x, e, pos, n) == seq![u32_at(x, e, pos) as u32] + rings_shape(
            x,
            e,
            pos + 4,
            u32_at(x, e, pos),
        ) + polygons_shape(x, e, rings_end(x, e, pos)->0, (n - 1) as nat),
        polygons_offsets(x, e, pos, n) == rings_offsets(x, e, pos + 4, u32_at(x, e, pos))
            + polygons_offsets(x, e, rings_end(x, e, pos)->0, (n - 1) as nat),
{
}

#[verifier::rlimit(100)]
proof fn lemma_rw_polygons(
    g: Seq<u8>,
    e: Endian,
    pos: int,
    n: nat,
    ps: Seq<(u64, u64)>,
    k: int,
    s: Seq<u8>,
)
    requires
        polygons_from(g, e, pos, n) is Some,
        s.len() == g.len(),
        0 <= k,
        k + polygons_offsets(g, e, pos, n).len() <= ps.len(),
        s.subrange(pos, polygons_from(g, e, pos, n)->0) == rw_polygons(g, e, pos, n, ps, k),
    ensures
        polygons_from(s, e, pos, n) == polygons_from(g, e, pos, n),
        polygons_shape(s, e, pos, n) == polygons_shape(g, e, pos, n),
        polygons_offsets(s, e, pos, n) == polygons_offsets(g, e, pos, n),
        holds_pairs(s, e, polygons_offsets(g, e, pos, n), ps, k),
    decreases n,
{
    if n > 0 {
        let c = u32_at(g, e, pos);
        let p = rings_end(g, e, pos)->0;
        let q = polygons_from(g, e, pos, n)->0;
        let kr = rings_offsets(g, e, pos + 4, c).len();
        lemma_polygons_from_bound(g, e, pos, n);
        lemma_polygons_from_bound(g, e, p, (n - 1) as nat);
        crate::layout::lemma_rings_from_bound(g, e, pos + 4, c);
        lemma_len_rings(g, e, pos + 4, c, ps, k);
        let w0 = g.subrange(pos, pos + 4);
        let w1 = rw_rings(g, e, pos + 4, c, ps, k);
        let w2 = rw_polygons(g, e, p, (n - 1) as nat, ps, k + kr);
        assert(w0 + w1 + w2 =~= w0 + (w1 + w2));
        lemma_split(s, pos, pos + 4, q, w0, w1 + w2);
        lemma_split(s, pos + 4, p, q, w1, w2);
        lemma_count_same(s, g, e, pos);
        lemma_rw_rings(g, e, pos + 4, c, ps, k, s);
        lemma_rw_polygons(g, e, p, (n - 1) as nat, ps, k + kr, s);
        lemma_polygons_step(g, e, pos, n);
        lemma_polygons_step(s, e, pos, n);
        lemma_holds_concat(s, e, rings_offsets(g, e, pos + 4, c), polygons_offsets(g, e, p, (n - 1) as nat), ps, k);
    } else {
        reveal(holds_pairs);
    }
}

pub proof fn lemma_geometry_end_bound(g: Seq<u8>, e: Endian, pos: int)
    requires
        geometry_end(g, e, pos) is Some,
    ensures
        0 <= pos < geometry_end(g, e, pos)->0 <= g.len(),
    decreases g.len() - pos, 0int,
{
    let t = g[pos];
    if t == 3 || t == 5 {
        crate::layout::lemma_rings_from_bound(g, e, pos + 5, u32_at(g, e, pos + 1));
    } else if t == 6 {
        lemma_polygons_from_bound(g, e, pos + 5, u32_at(g, e, pos + 1));
    } else if t == 7 {
        lemma_members_from_bound(g, e, pos + 5, u32_at(g, e, pos + 1));
    }
}

proof fn lemma_members_from_bound(g: Seq<u8>, e: Endian, pos: int, n: nat)
    requires
        members_from(g, e, pos, n) is Some,
    ensures
        pos <= members_from(g, e, pos, n)->0 <= g.len(),
    decreases g.len() - pos, 1int, n,
{
    if n > 0 {
        lemma_members_from_bound(g, e, geometry_end(g, e, pos)->0, (n - 1) as nat);
    }
}

proof fn lemma_three(a: Seq<u8>, b: Seq<u8>, c: Seq<u8>)
    ensures
        a + b + c == a + (b + c),
{
    assert(a + b + c =~= a + (b + c));
}

#[verifier::rlimit(100)]
proof fn lemma_rw_geometry(g: Seq<u8>, e: Endian, pos: int, ps: Seq<(u64, u64)>, k: int, s: Seq<u8>)
    requires
        geometry_end(g, e, pos) is Some,
        s.len() == g.len(),
        0 <= k,
        k + geometry_offsets(g, e, pos).len() <= ps.len(),
        s.subrange(pos, geometry_end(g, e, pos)->0) == rw_geometry(g, e, pos, ps, k),
    ensures
        geometry_end(s, e, pos) == geometry_end(g, e, pos),
        geometry_shape(s, e, pos) == geometry_shape(g, e, pos),
        geometry_offsets(s, e, pos) == geometry_offsets(g, e, pos),
        holds_pairs(s, e, geometry_offsets(g, e, pos), ps, k),
    decreases g.len() - pos, 0int,
{
    let t = g[pos];
    let q = geometry_end(g, e, pos)->0;
    lemma_geometry_end_bound(g, e, pos);
    let w = rw_geometry(g, e, pos, ps, k);
    assert(s.subrange(pos, q)[0] == s[pos]);
    assert(w[0] == t);
    assert(s[pos] == t);
    if t == 1 {
        lemma_u64_bytes_len(ps[k].0, e);
        lemma_u64_bytes_len(ps[k].1, e);
        lemma_split(s, pos, pos + 1, q, seq![1u8], pair_bytes(ps[k], e));
        lemma_pair_at(s, e, pos + 1, ps[k]);
        reveal(holds_pairs);
        assert(geometry_offsets(g, e, pos) =~= seq![pos + 1]);
    } else if t == 2 || t == 4 {
        lemma_len_seq(g, e, pos + 1, ps, k);
        lemma_split(s, pos, pos + 1, q, seq![t], rw_seq(g, e, pos + 1, ps, k));
        lemma_seq_holds(g, e, pos + 1, ps, k, s);
    } else {
        let c = u32_at(g, e, pos + 1);
        let w0 = g.subrange(pos + 1, pos + 5);
        let rest = if t == 3 || t == 5 {
            rw_rings(g, e, pos + 5, c, ps, k)
        } else if t == 6 {
            rw_polygons(g, e, pos + 5, c, ps, k)
        } else {
            rw_members(g, e, pos + 5, c, ps, k)
        };
        lemma_three(seq![t], w0, rest);
        lemma_split(s, pos, pos + 1, q, seq![t], w0 + rest);
        lemma_split(s, pos + 1, pos + 5, q, w0, rest);
        lemma_count_same(s, g, e, pos + 1);
        if t == 3 || t == 5 {
            lemma_rw_rings(g, e, pos + 5, c, ps, k, s);
        } else if t == 6 {
            lemma_rw_polygons(g, e, pos + 5, c, ps, k, s);
        } else {
            lemma_rw_members(g, e, pos + 5, c, ps, k, s);
        }
    }
}

#[verifier::rlimit(100)]
proof fn lemma_rw_members(
    g: Seq<u8>,
    e: Endian,
    pos: int,
    n: nat,
    ps: Seq<(u64, u64)>,
    k: int,
    s: Seq<u8>,
)
    requires
        members_from(g, e, pos, n) is Some,
        s.len() == g.len(),
        0 <= k,
        k + members_offsets(g, e, pos, n).len() <= ps.len(),
        s.subrange(pos, members_from(g, e, pos, n)->0) == rw_members(g, e, pos, n, ps, k),
    ensures
        members_from(s, e, pos, n) == members_from(g, e, pos, n),
        members_shape(s, e, pos, n) == members_shape(g, e, pos, n),
        members_offsets(s, e, pos, n) == members_offsets(g, e, pos, n),
        holds_pairs(s, e, members_offsets(g, e, pos, n), ps, k),
    decreases g.len() - pos, 1int, n,
{
    if n > 0 {
        let p = geometry_end(g, e, pos)->0;
        let q = members_from(g, e, pos, n)->0;
        let kg = geometry_offsets(g, e, pos).len();
        lemma_geometry_end_bound(g, e, pos);
        lemma_members_from_bound(g, e, p, (n - 1) as nat);
        lemma_len_geometry(g, e, pos, ps, k);
        lemma_split(s, pos, p, q, rw_geometry(g, e, pos, ps, k), rw_members(g, e, p, (n - 1) as nat, ps, k + kg));
        lemma_rw_geometry(g, e, pos, ps, k, s);
        lemma_rw_members(g, e, p, (n - 1) as nat, ps, k + kg, s);
        lemma_holds_concat(s, e, geometry_offsets(g, e, pos), members_offsets(g, e, p, (n - 1) as nat), ps, k);
    } else {
        reveal(holds_pairs);
    }
}

fn push_pair(out: &mut Vec<u8>, p: (u64, u64), e: Endian)
    ensures
        final(out)@ == old(out)@ + pair_bytes(p, e),
{
    push_u64(out, p.0, e);
    push_u64(out, p.1, e);
    assert(final(out)@ =~= old(out)@ + pair_bytes(p, e));
}

fn append_seq(
    g: &[u8],
    e: Endian,
    pos: usize,
    ps: &Vec<(u64, u64)>,
    k: usize,
    out: &mut Vec<u8>,
) -> (r: (usize, usize))
    requires
        coords_end(g@, e, pos as int) is Some,
        k + u32_at(g@, e, pos as int) <= ps@.len(),
    ensures
        final(out)@ == old(out)@ + rw_seq(g@, e, pos as int, ps@, k as int),
        coords_end(g@, e, pos as int) == Some(r.0 as int),
        r.1 == k + u32_at(g@, e, pos as int),
{
    let len = g.len();
    let plen = ps.len();
    let ghost start = out@;
    out.push(g[pos]);
    out.push(g[pos + 1]);
    out.push(g[pos + 2]);
    out.push(g[pos + 3]);
    assert(out@ =~= start + g@.subrange(pos as int, pos + 4));
    let n = read_u32(g, pos, e) as usize;
    let mut i: usize = 0;
    while i < n
        invariant
            i <= n,
            plen == ps@.len(),
            n == u32_at(g@, e, pos as int),
            k + n <= ps@.len(),
            out@ == start + g@.subrange(pos as int, pos + 4) + new_pairs(ps@, k as int, i as nat, e),
        decreases n - i,
    {
        push_pair(out, ps[k + i], e);
        proof {
            assert(out@ =~= start + g@.subrange(pos as int, pos + 4) + new_pairs(ps@, k as int, (i + 1) as nat, e));
        }
        i = i + 1;
    }
    assert(out@ =~= start + rw_seq(g@, e, pos as int, ps@, k as int));
    (pos + 4 + 16 * n, k + n)
}

fn append_rings(
    g: &[u8],
    e: Endian,
    pos: usize,
    n: u32,
    ps: &Vec<(u64, u64)>,
    k: usize,
    out: &mut Vec<u8>,
) -> (r: (usize, usize))
    requires
        rings_from(g@, e, pos as int, n as nat) is Some,
        k + rings_offsets(g@, e, pos as int, n as nat).len() <= ps@.len(),
    ensures
        final(out)@ == old(out)@ + rw_rings(g@, e, pos as int, n as nat, ps@, k as int),
        rings_from(g@, e, pos as int, n as nat) == Some(r.0 as int),
        r.1 == k + rings_offsets(g@, e, pos as int, n as nat).len(),
    decreases n,
{
    if n == 0 {
        assert(out@ =~= out@ + Seq::<u8>::empty());
        return (pos, k);
    }
    let ghost start = out@;
    let (p, k1) = append_seq(g, e, pos, ps, k, out);
    let ghost mid = out@;
    let (q, k2) = append_rings(g, e, p, n - 1, ps, k1, out);
    proof {
        assert(out@ =~= start + (rw_seq(g@, e, pos as int, ps@, k as int) + rw_rings(g@, e, p as int, (n - 1) as nat, ps@, k1 as int)));
    }
    (q, k2)
}

fn push_count(g: &[u8], pos: usize, out: &mut Vec<u8>)
    requires
        pos + 4 <= g@.len(),
    ensures
        final(out)@ == old(out)@ + g@.subrange(pos as int, pos + 4),
{
    let len = g.len();
    out.push(g[pos]);
    out.push(g[pos + 1]);
    out.push(g[pos + 2]);
    out.push(g[pos + 3]);
    assert(final(out)@ =~= old(out)@ + g@.subrange(pos as int, pos + 4));
}

#[verifier::rlimit(60)]
fn append_polygons(
    g: &[u8],
    e: Endian,
    pos: usize,
    n: u32,
    ps: &Vec<(u64, u64)>,
    k: usize,
    out: &mut Vec<u8>,
) -> (r: (usize, usize))
    requires
        polygons_from(g@, e, pos as int, n as nat) is Some,
        k + polygons_offsets(g@, e, pos as int, n as nat).len() <= ps@.len(),
    ensures
        final(out)@ == old(out)@ + rw_polygons(g@, e, pos as int, n as nat, ps@, k as int),
        polygons_from(g@, e, pos as int, n as nat) == Some(r.0 as int),
        r.1 == k + polygons_offsets(g@, e, pos as int, n as nat).len(),
    decreases n,
{
    if n == 0 {
        assert(out@ =~= out@ + Seq::<u8>::empty());
        return (pos, k);
    }
    let len = g.len();
    let ghost start = out@;
    push_count(g, pos, out);
    let ghost a = out@;
    let c = read_u32(g, pos, e);
    let (p, k1) = append_rings(g, e, pos + 4, c, ps, k, out);
    let ghost b = out@;
    let (q, k2) = append_polygons(g, e, p, n - 1, ps, k1, out);
    proof {
        let w0 = g@.subrange(pos as int, pos + 4);
        let w1 = rw_rings(g@, e, pos + 4, c as nat, ps@, k as int);
        let w2 = rw_polygons(g@, e, p as int, (n - 1) as nat, ps@, k1 as int);
        assert(out@ == start + w0 + w1 + w2);
        assert(start + w0 + w1 + w2 =~= start + (w0 + w1 + w2));
    }
    (q, k2)
}

fn append_simple(
    g: &[u8],
    e: Endian,
    pos: usize,
    ps: &Vec<(u64, u64)>,
    k: usize,
    out: &mut Vec<u8>,
) -> (r: (usize, usize))
    requires
        geometry_end(g@, e, pos as int) is Some,
        g@[pos as int] == 1 || g@[pos as int] == 2 || g@[pos as int] == 4,
        k + geometry_offsets(g@, e, pos as int).len() <= ps@.len(),
    ensures
        final(out)@ == old(out)@ + rw_geometry(g@, e, pos as int, ps@, k as int),
        geometry_end(g@, e, pos as int) == Some(r.0 as int),
        r.1 == k + geometry_offsets(g@, e, pos as int).len(),
{
    let len = g.len();
    let plen = ps.len();
    let t = g[pos];
    let ghost start = out@;
    out.push(t);
    if t == 1 {
        push_pair(out, ps[k], e);
        assert(out@ =~= start + rw_geometry(g@, e, pos as int, ps@, k as int));
        (pos + 17, k + 1)
    } else {
        let r = append_seq(g, e, pos + 1, ps, k, out);
        assert(out@ =~= start + rw_geometry(g@, e, pos as int, ps@, k as int));
        r
    }
}

fn push_head(g: &[u8], pos: usize, out: &mut Vec<u8>)
    requires
        pos + 5 <= g@.len(),
    ensures
        final(out)@ == old(out)@ + (seq![g@[pos as int]] + g@.subrange(pos + 1, pos + 5)),
{
    let len = g.len();
    out.push(g[pos]);
    out.push(g[pos + 1]);
    out.push(g[pos + 2]);
    out.push(g[pos + 3]);
    out.push(g[pos + 4]);
    assert(final(out)@ =~= old(out)@ + (seq![g@[pos as int]] + g@.subrange(pos + 1, pos + 5)));
}

fn append_ringed(
    g: &[u8],
    e: Endian,
    pos: usize,
    ps: &Vec<(u64, u64)>,
    k: usize,
    out: &mut Vec<u8>,
) -> (r: (usize, usize))
    requires
        geometry_end(g@, e, pos as int) is Some,
        g@[pos as int] == 3 || g@[pos as int] == 5,
        k + geometry_offsets(g@, e, pos as int).len() <= ps@.len(),
    ensures
        final(out)@ == old(out)@ + rw_geometry(g@, e, pos as int, ps@, k as int),
        geometry_end(g@, e, pos as int) == Some(r.0 as int),
        r.1 == k + geometry_offsets(g@, e, pos as int).len(),
{
    let len = g.len();
    let ghost start = out@;
    push_head(g, pos, out);
    let c = read_u32(g, pos + 1, e);
    let r = append_rings(g, e, pos + 5, c, ps, k, out);
    assert(out@ =~= start + rw_geometry(g@, e, pos as int, ps@, k as int));
    r
}

fn append_multipolygon(
    g: &[u8],
    e: Endian,
    pos: usize,
    ps: &Vec<(u64, u64)>,
    k: usize,
    out: &mut Vec<u8>,
) -> (r: (usize, usize))
    requires
        geometry_end(g@, e, pos as int) is Some,
        g@[pos as int] == 6,
        k + geometry_offsets(g@, e, pos as int).len() <= ps@.len(),
    ensures
        final(out)@ == old(out)@ + rw_geometry(g@, e, pos as int, ps@, k as int),
        geometry_end(g@, e, pos as int) == Some(r.0 as int),
        r.1 == k + geometry_offsets(g@, e, pos as int).len(),
{
    let len = g.len();
    let ghost start = out@;
    push_head(g, pos, out);
    let c = read_u32(g, pos + 1, e);
    let r = append_polygons(g, e, pos + 5, c, ps, k, out);
    assert(out@ =~= start + rw_geometry(g@, e, pos as int, ps@, k as int));
    r
}

fn append_collection(
    g: &[u8],
    e: Endian,
    pos: usize,
    ps: &Vec<(u64, u64)>,
    k: usize,
    out: &mut Vec<u8>,
) -> (r: (usize, usize))
    requires
        geometry_end(g@, e, pos as int) is Some,
        g@[pos as int] == 7,
        k + geometry_offsets(g@, e, pos as int).len() <= ps@.len(),
    ensures
        final(out)@ == old(out)@ + rw_geometry(g@, e, pos as int, ps@, k as int),
        geometry_end(g@, e, pos as int) == Some(r.0 as int),
        r.1 == k + geometry_offsets(g@, e, pos as int).len(),
    decreases g@.len() - pos, 0int, 0int,
{
    let len = g.len();
    let ghost start = out@;
    push_head(g, pos, out);
    let c = read_u32(g, pos + 1, e);
    let r = append_members(g, e, pos + 5, c, ps, k, out);
    assert(out@ =~= start + rw_geometry(g@, e, pos as int, ps@, k as int));
    r
}

fn append_geometry(
    g: &[u8],
    e: Endian,
    pos: usize,
    ps: &Vec<(u64, u64)>,
    k: usize,
    out: &mut Vec<u8>,
) -> (r: (usize, usize))
    requires
        geometry_end(g@, e, pos as int) is Some,
        k + geometry_offsets(g@, e, pos as int).len() <= ps@.len(),
    ensures
        final(out)@ == old(out)@ + rw_geometry(g@, e, pos as int, ps@, k as int),
        geometry_end(g@, e, pos as int) == Some(r.0 as int),
        r.1 == k + geometry_offsets(g@, e, pos as int).len(),
    decreases g@.len() - pos, 1int, 0int,
{
    let t = g[pos];
    if t == 1 || t == 2 || t == 4 {
        append_simple(g, e, pos, ps, k, out)
    } else if t == 3 || t == 5 {
        append_ringed(g, e, pos, ps, k, out)
    } else if t == 6 {
        append_multipolygon(g, e, pos, ps, k, out)
    } else {
        append_collection(g, e, pos, ps, k, out)
    }
}

fn append_members(
    g: &[u8],
    e: Endian,
    pos: usize,
    n: u32,
    ps: &Vec<(u64, u64)>,
    k: usize,
    out: &mut Vec<u8>,
) -> (r: (usize, usize))
    requires
        members_from(g@, e, pos as int, n as nat) is Some,
        k + members_offsets(g@, e, pos as int, n as nat).len() <= ps@.len(),
    ensures
        final(out)@ == old(out)@ + rw_members(g@, e, pos as int, n as nat, ps@, k as int),
        members_from(g@, e, pos as int, n as nat) == Some(r.0 as int),
        r.1 == k + members_offsets(g@, e, pos as int, n as nat).len(),
    decreases g@.len() - pos, 2int, n,
{
    if n == 0 {
        assert(out@ =~= out@ + Seq::<u8>::empty());
        return (pos, k);
    }
    let ghost start = out@;
    let (p, k1) = append_geometry(g, e, pos, ps, k, out);
    proof {
        lemma_geometry_end_bound(g@, e, pos as int);
    }
    let (q, k2) = append_members(g, e, p, n - 1, ps, k1, out);
    proof {
        assert(out@ =~= start + (rw_geometry(g@, e, pos as int, ps@, k as int) + rw_members(g@, e, p as int, (n - 1) as nat, ps@, k1 as int)));
    }
    (q, k2)
}

/// The facts that make a rewritten body stand in for `g`.
pub open spec fn rewrites(w: Seq<u8>, g: Seq<u8>, e: Endian, ps: Seq<(u64, u64)>) -> bool {
    &&& w.len() == g.len()
    &&& geometry_end(w, e, 0) == Some(g.len() as int)
    &&& geometry_shape(w, e, 0) == geometry_shape(g, e, 0)
    &&& geometry_offsets(w, e, 0) == geometry_offsets(g, e, 0)
    &&& geometry_offsets(g, e, 0).map_values(|o: int| pair_at(w, e, o)) == ps
}

/// Appends the body `g` (one geometry, nothing after it) with its pairs
/// replaced by `ps` in walk order; kinds, counts, layout and length are kept.
pub fn append_rewritten(g: &[u8], e: Endian, ps: &Vec<(u64, u64)>, out: &mut Vec<u8>)
    requires
        geometry_end(g@, e, 0) == Some(g@.len() as int),
        geometry_offsets(g@, e, 0).len() == ps@.len(),
    ensures
        final(out)@ == old(out)@ + rw_geometry(g@, e, 0, ps@, 0),
        rewrites(rw_geometry(g@, e, 0, ps@, 0), g@, e, ps@),
{
    append_geometry(g, e, 0, ps, 0, out);
    proof {
        let w = rw_geometry(g@, e, 0, ps@, 0);
        lemma_len_geometry(g@, e, 0, ps@, 0);
        assert(w.subrange(0, g@.len() as int) =~= w);
        lemma_rw_geometry(g@, e, 0, ps@, 0, w);
        reveal(holds_pairs);
        assert(geometry_offsets(g@, e, 0).map_values(|o: int| pair_at(w, e, o)) =~= ps@);
    }
}

} // verus!
