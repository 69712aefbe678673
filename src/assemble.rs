//! Building a blob from its parts: the kinds and counts of the geometry in
//! walk order (as `Geob::shape` gives them) and its coordinate pairs (as
//! `Geob::coords` gives them). This is how values are made from other
//! geometry models.
use vstd::prelude::*;
use crate::geob::Geob;
use crate::layout::{check, well_formed};
use crate::equality::{same_counts, shape_of};
use crate::projection::{coords_of, same_pairs};
use crate::scalar::{Endian, push_u32, push_u64, u32_bytes, u64_bytes};

verus! {

/// The bytes of the pairs `cs[j..j + n]`.
pub open spec fn pairs_bytes(cs: Seq<(u64, u64)>, j: int, n: nat) -> Seq<u8>
    decreases n,
{
    if n == 0 {
        Seq::empty()
    } else {
        pairs_bytes(cs, j, (n - 1) as nat) + u64_bytes(cs[j + n - 1].0, Endian::Little)
            + u64_bytes(cs[j + n - 1].1, Endian::Little)
    }
}

/// A coordinate sequence whose count is `sh[i]`: the next token, the next
/// pair and the bytes.
pub open spec fn seq_part(sh: Seq<u32>, i: int, cs: Seq<(u64, u64)>, j: int) -> Option<
    (int, int, Seq<u8>),
> {
    if 0 <= i < sh.len() && 0 <= j && j + sh[i] <= cs.len() {
        Some(
            (
                i + 1,
                j + sh[i],
                u32_bytes(sh[i], Endian::Little) + pairs_bytes(cs, j, sh[i] as nat),
            ),
        )
    } else {
        None
    }
}

/// `n` coordinate sequences.
pub open spec fn rings_part(sh: Seq<u32>, i: int, cs: Seq<(u64, u64)>, j: int, n: nat) -> Option<
    (int, int, Seq<u8>),
>
    decreases n,
{
    if n == 0 {
        Some((i, j, Seq::empty()))
    } else {
        match rings_part(sh, i, cs, j, (n - 1) as nat) {
            Some((i1, j1, o1)) => match seq_part(sh, i1, cs, j1) {
                Some((i2, j2, o2)) => Some((i2, j2, o1 + o2)),
                None => None,
            },
            None => None,
        }
    }
}

/// A polygon body whose ring count is `sh[i]`.
pub open spec fn polygon_part(sh: Seq<u32>, i: int, cs: Seq<(u64, u64)>, j: int) -> Option<
    (int, int, Seq<u8>),
> {
    if 0 <= i < sh.len() {
        match rings_part(sh, i + 1, cs, j, sh[i] as nat) {
            Some((i1, j1, o)) => Some((i1, j1, u32_bytes(sh[i], Endian::Little) + o)),
            None => None,
        }
    } else {
        None
    }
}

/// `n` polygon bodies.
pub open spec fn polygons_part(
    sh: Seq<u32>,
    i: int,
    cs: Seq<(u64, u64)>,
    j: int,
    n: nat,
) -> Option<(int, int, Seq<u8>)>
    decreases n,
{
    if n == 0 {
        Some((i, j, Seq::empty()))
    } else {
        match polygons_part(sh, i, cs, j, (n - 1) as nat) {
            Some((i1, j1, o1)) => match polygon_part(sh, i1, cs, j1) {
                Some((i2, j2, o2)) => Some((i2, j2, o1 + o2)),
                None => None,
            },
            None => None,
        }
    }
}

/// A tagged geometry whose kind is `sh[i]`.
pub open spec fn geometry_part(sh: Seq<u32>, i: int, cs: Seq<(u64, u64)>, j: int) -> Option<
    (int, int, Seq<u8>),
>
    decreases sh.len() - i, 0int,
{
    if 0 <= i < sh.len() {
        let t = sh[i];
        if t == 1 {
            if 0 <= j < cs.len() {
                Some(
                    (
                        i + 1,
                        j + 1,
                        seq![1u8] + u64_bytes(cs[j].0, Endian::Little) + u64_bytes(
                            cs[j].1,
                            Endian::Little,
                        ),
                    ),
                )
            } else {
                None
            }
        } else if t == 2 || t == 4 {
            match seq_part(sh, i + 1, cs, j) {
                Some((i1, j1, o)) => Some((i1, j1, seq![t as u8] + o)),
                None => None,
            }
        } else if t == 3 || t == 5 {
            match polygon_part(sh, i + 1, cs, j) {
                Some((i1, j1, o)) => Some((i1, j1, seq![t as u8] + o)),
                None => None,
            }
        } else if t == 6 && i + 1 < sh.len() {
            match polygons_part(sh, i + 2, cs, j, sh[i + 1] as nat) {
                Some((i1, j1, o)) => Some(
                    (i1, j1, seq![6u8] + u32_bytes(sh[i + 1], Endian::Little) + o),
                ),
                None => None,
            }
        } else if t == 7 && i + 1 < sh.len() {
            match members_part(sh, i + 2, cs, j, sh[i + 1] as nat) {
                Some((i1, j1, o)) => Some(
                    (i1, j1, seq![7u8] + u32_bytes(sh[i + 1], Endian::Little) + o),
                ),
                None => None,
            }
        } else {
            None
        }
    } else {
        None
    }
}

/// `n` tagged geometries.
pub open spec fn members_part(
    sh: Seq<u32>,
    i: int,
    cs: Seq<(u64, u64)>,
    j: int,
    n: nat,
) -> Option<(int, int, Seq<u8>)>
    decreases sh.len() - i, 1int, n,
{
    if n == 0 {
        Some((i, j, Seq::empty()))
    } else if 0 <= i < sh.len() {
        match geometry_part(sh, i, cs, j) {
            Some((i1, j1, o1)) => if i < i1 && i1 <= sh.len() {
                match members_part(sh, i1, cs, j1, (n - 1) as nat) {
                    Some((i2, j2, o2)) => Some((i2, j2, o1 + o2)),
                    None => None,
                }
            } else {
                None
            },
            None => None,
        }
    } else {
        None
    }
}

/// The little-endian blob made of `srid`, the kinds and counts `sh` and the
/// pairs `cs`, where the parts fit together exactly.
pub open spec fn assembled(srid: u32, sh: Seq<u32>, cs: Seq<(u64, u64)>) -> Option<Seq<u8>> {
    match geometry_part(sh, 0, cs, 0) {
        Some((i, j, o)) => if i == sh.len() && j == cs.len() {
            Some(seq![1u8] + u32_bytes(srid, Endian::Little) + o)
        } else {
            None
        },
        None => None,
    }
}

/// The bytes of a successful step.
pub open spec fn produced3(r: Option<(int, int, Seq<u8>)>) -> Seq<u8> {
    match r {
        Some((_, _, o)) => o,
        None => Seq::empty(),
    }
}

/// Why parts could not be assembled.
#[derive(Clone, Copy, Debug, PartialEq, Eq, Structural)]
pub enum AssembleError {
    /// The kinds, counts and pairs do not fit together.
    Mismatch,
}

fn put_pairs(cs: &Vec<(u64, u64)>, j: usize, n: u32, out: &mut Vec<u8>)
    requires
        j + n <= cs@.len(),
    ensures
        final(out)@ == old(out)@ + pairs_bytes(cs@, j as int, n as nat),
{
    let mut k: u32 = 0;
    let ghost start = out@;
    let len = cs.len();
    while k < n
        invariant
            k <= n,
            len == cs@.len(),
            j + n <= cs@.len(),
            out@ == start + pairs_bytes(cs@, j as int, k as nat),
        decreases n - k,
    {
        let (x, y) = cs[j + k as usize];
        push_u64(out, x, Endian::Little);
        push_u64(out, y, Endian::Little);
        proof {
            assert(out@ =~= start + pairs_bytes(cs@, j as int, (k + 1) as nat));
        }
        k = k + 1;
    }
}

fn put_seq(sh: &Vec<u32>, i: usize, cs: &Vec<(u64, u64)>, j: usize, out: &mut Vec<u8>) -> (r:
    Option<(usize, usize)>)
    ensures
        match r {
            Some((x, y)) => seq_part(sh@, i as int, cs@, j as int) matches Some((i1, j1, o)) && i1 == x as int && j1
                == y as int && final(out)@ == old(out)@ + o,
            None => seq_part(sh@, i as int, cs@, j as int) is None,
        },
{
    if i >= sh.len() {
        return None;
    }
    let n = sh[i];
    if j > cs.len() || cs.len() - j < n as usize {
        return None;
    }
    let ghost start = out@;
    push_u32(out, n, Endian::Little);
    put_pairs(cs, j, n, out);
    assert(out@ =~= start + (u32_bytes(n, Endian::Little) + pairs_bytes(cs@, j as int, n as nat)));
    Some((i + 1, j + n as usize))
}

fn put_rings(sh: &Vec<u32>, i: usize, cs: &Vec<(u64, u64)>, j: usize, n: u32, out: &mut Vec<u8>) -> (r:
    Option<(usize, usize)>)
    ensures
        match r {
            Some((x, y)) => rings_part(sh@, i as int, cs@, j as int, n as nat) matches Some((i1, j1, o)) && i1 == x as int && j1
                == y as int && final(out)@ == old(out)@ + o,
            None => rings_part(sh@, i as int, cs@, j as int, n as nat) is None,
        },
{
    let ghost start = out@;
    let ghost mut acc: Seq<u8> = Seq::empty();
    let mut a = i;
    let mut b = j;
    let mut k: u32 = 0;
    assert(start + acc =~= start);
    while k < n
        invariant
            k <= n,
            rings_part(sh@, i as int, cs@, j as int, k as nat) == Some((a as int, b as int, acc)),
            out@ == start + acc,
        decreases n - k,
    {
        match put_seq(sh, a, cs, b, out) {
            Some((a2, b2)) => {
                proof {
                    let o2 = produced3(seq_part(sh@, a as int, cs@, b as int));
                    assert(out@ =~= start + (acc + o2));
                    acc = acc + o2;
                }
                a = a2;
                b = b2;
            },
            None => {
                proof {
                    lemma_rings_part_none(sh@, i as int, cs@, j as int, (k + 1) as nat, n as nat);
                }
                return None;
            },
        }
        k = k + 1;
    }
    Some((a, b))
}

proof fn lemma_rings_part_none(sh: Seq<u32>, i: int, cs: Seq<(u64, u64)>, j: int, k: nat, n: nat)
    requires
        k <= n,
        rings_part(sh, i, cs, j, k) is None,
    ensures
        rings_part(sh, i, cs, j, n) is None,
    decreases n - k,
{
    if k < n {
        lemma_rings_part_none(sh, i, cs, j, k + 1, n);
    }
}


fn put_polygon(sh: &Vec<u32>, i: usize, cs: &Vec<(u64, u64)>, j: usize, out: &mut Vec<u8>) -> (r:
    Option<(usize, usize)>)
    ensures
        match r {
            Some((x, y)) => polygon_part(sh@, i as int, cs@, j as int) matches Some((i1, j1, o)) && i1 == x as int && j1
                == y as int && final(out)@ == old(out)@ + o,
            None => polygon_part(sh@, i as int, cs@, j as int) is None,
        },
{
    if i >= sh.len() {
        return None;
    }
    let n = sh[i];
    let ghost start = out@;
    push_u32(out, n, Endian::Little);
    let r = put_rings(sh, i + 1, cs, j, n, out);
    proof {
        if r is Some {
            let o = produced3(rings_part(sh@, i + 1, cs@, j as int, n as nat));
            assert(out@ =~= start + (u32_bytes(n, Endian::Little) + o));
        }
    }
    r
}

fn put_polygons(
    sh: &Vec<u32>,
    i: usize,
    cs: &Vec<(u64, u64)>,
    j: usize,
    n: u32,
    out: &mut Vec<u8>,
) -> (r: Option<(usize, usize)>)
    ensures
        match r {
            Some((x, y)) => polygons_part(sh@, i as int, cs@, j as int, n as nat) matches Some((i1, j1, o)) && i1 == x as int && j1
                == y as int && final(out)@ == old(out)@ + o,
            None => polygons_part(sh@, i as int, cs@, j as int, n as nat) is None,
        },
{
    let ghost start = out@;
    let ghost mut acc: Seq<u8> = Seq::empty();
    let mut a = i;
    let mut b = j;
    let mut k: u32 = 0;
    assert(start + acc =~= start);
    while k < n
        invariant
            k <= n,
            polygons_part(sh@, i as int, cs@, j as int, k as nat) == Some(
                (a as int, b as int, acc),
            ),
            out@ == start + acc,
        decreases n - k,
    {
        match put_polygon(sh, a, cs, b, out) {
            Some((a2, b2)) => {
                proof {
                    let o2 = produced3(polygon_part(sh@, a as int, cs@, b as int));
                    assert(out@ =~= start + (acc + o2));
                    acc = acc + o2;
                }
                a = a2;
                b = b2;
            },
            None => {
                proof {
                    lemma_polygons_part_none(sh@, i as int, cs@, j as int, (k + 1) as nat, n as nat);
                }
                return None;
            },
        }
        k = k + 1;
    }
    Some((a, b))
}

proof fn lemma_polygons_part_none(
    sh: Seq<u32>,
    i: int,
    cs: Seq<(u64, u64)>,
    j: int,
    k: nat,
    n: nat,
)
    requires
        k <= n,
        polygons_part(sh, i, cs, j, k) is None,
    ensures
        polygons_part(sh, i, cs, j, n) is None,
    decreases n - k,
{
    if k < n {
        lemma_polygons_part_none(sh, i, cs, j, k + 1, n);
    }
}

fn put_geometry(sh: &Vec<u32>, i: usize, cs: &Vec<(u64, u64)>, j: usize, out: &mut Vec<u8>) -> (r:
    Option<(usize, usize)>)
    ensures
        match r {
            Some((x, y)) => geometry_part(sh@, i as int, cs@, j as int) matches Some((i1, j1, o)) && i1 == x as int && j1
                == y as int && final(out)@ == old(out)@ + o,
            None => geometry_part(sh@, i as int, cs@, j as int) is None,
        },
        r matches Some((x, _)) ==> i < x <= sh@.len(),
    decreases sh@.len() - i, 0int,
{
    if i >= sh.len() {
        return None;
    }
    let t = sh[i];
    let ghost start = out@;
    if t == 1 {
        if j >= cs.len() {
            return None;
        }
        let (x, y) = cs[j];
        out.push(1);
        push_u64(out, x, Endian::Little);
        push_u64(out, y, Endian::Little);
        assert(out@ =~= start + (seq![1u8] + u64_bytes(x, Endian::Little) + u64_bytes(y, Endian::Little)));
        return Some((i + 1, j + 1));
    }
    if t == 2 || t == 4 || t == 3 || t == 5 {
        out.push(t as u8);
        let r = if t == 2 || t == 4 {
            put_seq(sh, i + 1, cs, j, out)
        } else {
            put_polygon(sh, i + 1, cs, j, out)
        };
        proof {
            if r is Some {
                let o = if t == 2 || t == 4 {
                    produced3(seq_part(sh@, i + 1, cs@, j as int))
                } else {
                    produced3(polygon_part(sh@, i + 1, cs@, j as int))
                };
                assert(out@ =~= start + (seq![t as u8] + o));
            }
        }
        proof {
            lemma_part_advances(sh@, i + 1, cs@, j as int, t == 2 || t == 4);
        }
        return r;
    }
    if (t == 6 || t == 7) && i + 1 < sh.len() {
        let n = sh[i + 1];
        out.push(t as u8);
        push_u32(out, n, Endian::Little);
        let r = if t == 6 {
            put_polygons(sh, i + 2, cs, j, n, out)
        } else {
            put_members(sh, i + 2, cs, j, n, out)
        };
        proof {
            if r is Some {
                let o = if t == 6 {
                    produced3(polygons_part(sh@, i + 2, cs@, j as int, n as nat))
                } else {
                    produced3(members_part(sh@, i + 2, cs@, j as int, n as nat))
                };
                assert(out@ =~= start + (seq![t as u8] + u32_bytes(n, Endian::Little) + o));
                if t == 6 {
                    lemma_polygons_part_advances(sh@, i + 2, cs@, j as int, n as nat);
                } else {
                    lemma_members_part_advances(sh@, i + 2, cs@, j as int, n as nat);
                }
            }
        }
        return r;
    }
    None
}

fn put_members(
    sh: &Vec<u32>,
    i: usize,
    cs: &Vec<(u64, u64)>,
    j: usize,
    n: u32,
    out: &mut Vec<u8>,
) -> (r: Option<(usize, usize)>)
    ensures
        match r {
            Some((x, y)) => members_part(sh@, i as int, cs@, j as int, n as nat) matches Some((i1, j1, o)) && i1 == x as int && j1
                == y as int && final(out)@ == old(out)@ + o,
            None => members_part(sh@, i as int, cs@, j as int, n as nat) is None,
        },
    decreases sh@.len() - i, 1int, n,
{
    if n == 0 {
        assert(out@ =~= out@ + Seq::<u8>::empty());
        return Some((i, j));
    }
    if i >= sh.len() {
        return None;
    }
    let ghost start = out@;
    match put_geometry(sh, i, cs, j, out) {
        Some((a, b)) => {
            match put_members(sh, a, cs, b, n - 1, out) {
                Some((c, d)) => {
                    proof {
                        let o1 = produced3(geometry_part(sh@, i as int, cs@, j as int));
                        let o2 = produced3(members_part(sh@, a as int, cs@, b as int, (n - 1) as nat));
                        assert(out@ =~= start + (o1 + o2));
                    }
                    Some((c, d))
                },
                None => None,
            }
        },
        None => None,
    }
}

proof fn lemma_part_advances(sh: Seq<u32>, i: int, cs: Seq<(u64, u64)>, j: int, line: bool)
    ensures
        line ==> (seq_part(sh, i, cs, j) matches Some((x, _, _)) ==> i < x <= sh.len()),
        !line ==> (polygon_part(sh, i, cs, j) matches Some((x, _, _)) ==> i < x <= sh.len()),
{
    if 0 <= i < sh.len() {
        lemma_rings_part_advances(sh, i + 1, cs, j, sh[i] as nat);
    }
}

proof fn lemma_rings_part_advances(sh: Seq<u32>, i: int, cs: Seq<(u64, u64)>, j: int, n: nat)
    ensures
        rings_part(sh, i, cs, j, n) matches Some((x, _, _)) ==> i <= x && (n > 0 ==> x <= sh.len()),
    decreases n,
{
    if n > 0 {
        lemma_rings_part_advances(sh, i, cs, j, (n - 1) as nat);
    }
}

proof fn lemma_polygons_part_advances(sh: Seq<u32>, i: int, cs: Seq<(u64, u64)>, j: int, n: nat)
    ensures
        polygons_part(sh, i, cs, j, n) matches Some((x, _, _)) ==> i <= x && (n > 0 ==> x
            <= sh.len()),
    decreases n,
{
    if n > 0 {
        lemma_polygons_part_advances(sh, i, cs, j, (n - 1) as nat);
        if let Some((i1, j1, o1)) = polygons_part(sh, i, cs, j, (n - 1) as nat) {
            if 0 <= i1 < sh.len() {
                lemma_rings_part_advances(sh, i1 + 1, cs, j1, sh[i1] as nat);
            }
        }
    }
}

proof fn lemma_members_part_advances(sh: Seq<u32>, i: int, cs: Seq<(u64, u64)>, j: int, n: nat)
    ensures
        members_part(sh, i, cs, j, n) matches Some((x, _, _)) ==> i <= x && (n > 0 ==> x
            <= sh.len()),
    decreases sh.len() - i, n,
{
    if n > 0 && 0 <= i < sh.len() {
        if let Some((i1, j1, o1)) = geometry_part(sh, i, cs, j) {
            if i < i1 && i1 <= sh.len() {
                lemma_members_part_advances(sh, i1, cs, j1, (n - 1) as nat);
            }
        }
    }
}

impl Geob {
    /// The little-endian value with SRID `srid`, the kinds and counts `shape`
    /// in walk order, and the pairs `pairs` in walk order. The assembled bytes
    /// are checked, and read back, before they are adopted.
    pub fn from_parts(srid: u32, shape: &Vec<u32>, pairs: &Vec<(u64, u64)>) -> (r: Result<
        Geob,
        AssembleError,
    >)
        ensures
            r matches Ok(g) ==> g.wf() && assembled(srid, shape@, pairs@) == Some(g@)
                && shape_of(g@) == shape@ && coords_of(g@) == pairs@,
            assembled(srid, shape@, pairs@) is None ==> r is Err,
            assembled(srid, shape@, pairs@) matches Some(b) && well_formed(b) && shape_of(b)
                == shape@ && coords_of(b) == pairs@ ==> r is Ok,
    {
        let mut out: Vec<u8> = Vec::new();
        out.push(1);
        push_u32(&mut out, srid, Endian::Little);
        match put_geometry(shape, 0, pairs, 0, &mut out) {
            Some((a, b)) => {
                if a != shape.len() || b != pairs.len() {
                    return Err(AssembleError::Mismatch);
                }
                proof {
                    let o = produced3(geometry_part(shape@, 0, pairs@, 0));
                    assert(out@ =~= seq![1u8] + u32_bytes(srid, Endian::Little) + o);
                }
                if check(out.as_slice()).is_err() {
                    return Err(AssembleError::Mismatch);
                }
                let g = Geob::new(out);
                if !same_counts(&g.shape(), shape) || !same_pairs(&g.coords(), pairs) {
                    return Err(AssembleError::Mismatch);
                }
                Ok(g)
            },
            None => Err(AssembleError::Mismatch),
        }
    }
}

} // verus!
