//! The traversal scheme every flood-fill variant shares, and the mesh
//! search reuses: admissible-step paths and reachability over an abstract
//! step relation, the work queue, the closure invariant, and the single
//! neighbour visit that all variants instantiate.
//!
//! The step relation and the seed set are spec-level parameters, so one
//! proof of soundness (every marked cell is reached), completeness (every
//! reached cell is marked once the queue drains) and termination serves
//! every variant.

use vstd::prelude::*;

use crate::grid::Grid3;
use std::collections::VecDeque;

verus! {

/// 6-connectivity: the two cells differ by one step along exactly one axis.
pub open spec fn adj6(a: (int, int, int), b: (int, int, int)) -> bool {
    ||| (b.0 == a.0 + 1 && b.1 == a.1 && b.2 == a.2)
    ||| (b.0 == a.0 - 1 && b.1 == a.1 && b.2 == a.2)
    ||| (b.0 == a.0 && b.1 == a.1 + 1 && b.2 == a.2)
    ||| (b.0 == a.0 && b.1 == a.1 - 1 && b.2 == a.2)
    ||| (b.0 == a.0 && b.1 == a.1 && b.2 == a.2 + 1)
    ||| (b.0 == a.0 && b.1 == a.1 && b.2 == a.2 - 1)
}

/// Offset of the structuring element cell `(kk, jj, ii)` applied to `a`: the
/// element's centre is its middle cell by integer division.
pub open spec fn strel_target(strct: Grid3<u8>, a: (int, int, int), kk: int, jj: int, ii: int) -> (
    int,
    int,
    int,
) {
    (
        a.0 + kk - strct.dz as int / 2,
        a.1 + jj - strct.dy as int / 2,
        a.2 + ii - strct.dx as int / 2,
    )
}

/// Connectivity by a structuring element: `b` is reached from `a` through
/// some non-zero cell of `strct`.
pub open spec fn adj_strel(strct: Grid3<u8>, a: (int, int, int), b: (int, int, int)) -> bool {
    exists|kk: int, jj: int, ii: int|
        strct.in_bounds(kk, jj, ii) && #[trigger] strct.val(kk, jj, ii) != 0 && b == strel_target(
            strct,
            a,
            kk,
            jj,
            ii,
        )
}

/// A traversal path: it starts at a cell admitted as a seed and every later
/// cell is reached from its predecessor by an admissible step.
pub open spec fn ok_path(
    edge_ok: spec_fn((int, int, int), (int, int, int)) -> bool,
    seed_ok: spec_fn((int, int, int)) -> bool,
    p: Seq<(int, int, int)>,
) -> bool
    decreases p.len(),
{
    if p.len() == 0 {
        false
    } else if p.len() == 1 {
        seed_ok(p[0])
    } else {
        ok_path(edge_ok, seed_ok, p.drop_last()) && edge_ok(p[p.len() - 2], p[p.len() - 1])
    }
}

/// A cell is reached when some traversal path ends on it.
pub open spec fn reaches(
    edge_ok: spec_fn((int, int, int), (int, int, int)) -> bool,
    seed_ok: spec_fn((int, int, int)) -> bool,
    c: (int, int, int),
) -> bool {
    exists|p: Seq<(int, int, int)>| ok_path(edge_ok, seed_ok, p) && p.last() == c
}

/// An admitted seed is reached by the one-cell path.
pub proof fn lemma_reach_seed(
    edge_ok: spec_fn((int, int, int), (int, int, int)) -> bool,
    seed_ok: spec_fn((int, int, int)) -> bool,
    c: (int, int, int),
)
    requires
        seed_ok(c),
    ensures
        reaches(edge_ok, seed_ok, c),
{
    let p = seq![c];
    assert(ok_path(edge_ok, seed_ok, p) && p.last() == c);
}

/// One admissible step extends reachability.
pub proof fn lemma_reach_step(
    edge_ok: spec_fn((int, int, int), (int, int, int)) -> bool,
    seed_ok: spec_fn((int, int, int)) -> bool,
    a: (int, int, int),
    b: (int, int, int),
)
    requires
        reaches(edge_ok, seed_ok, a),
        edge_ok(a, b),
    ensures
        reaches(edge_ok, seed_ok, b),
{
    let p = choose|p: Seq<(int, int, int)>| ok_path(edge_ok, seed_ok, p) && p.last() == a;
    let q = p.push(b);
    assert(q.drop_last() =~= p);
    assert(ok_path(edge_ok, seed_ok, q) && q.last() == b);
}

/// Admitting more seeds cannot lose reachability.
pub proof fn lemma_reach_mono(
    edge_ok: spec_fn((int, int, int), (int, int, int)) -> bool,
    seed_ok1: spec_fn((int, int, int)) -> bool,
    seed_ok2: spec_fn((int, int, int)) -> bool,
    c: (int, int, int),
)
    requires
        reaches(edge_ok, seed_ok1, c),
        forall|s: (int, int, int)| #[trigger] seed_ok1(s) ==> seed_ok2(s),
    ensures
        reaches(edge_ok, seed_ok2, c),
{
    let p = choose|p: Seq<(int, int, int)>| ok_path(edge_ok, seed_ok1, p) && p.last() == c;
    lemma_ok_path_mono(edge_ok, seed_ok1, seed_ok2, p);
    assert(ok_path(edge_ok, seed_ok2, p) && p.last() == c);
}

proof fn lemma_ok_path_mono(
    edge_ok: spec_fn((int, int, int), (int, int, int)) -> bool,
    seed_ok1: spec_fn((int, int, int)) -> bool,
    seed_ok2: spec_fn((int, int, int)) -> bool,
    p: Seq<(int, int, int)>,
)
    requires
        ok_path(edge_ok, seed_ok1, p),
        forall|s: (int, int, int)| #[trigger] seed_ok1(s) ==> seed_ok2(s),
    ensures
        ok_path(edge_ok, seed_ok2, p),
    decreases p.len(),
{
    if p.len() > 1 {
        lemma_ok_path_mono(edge_ok, seed_ok1, seed_ok2, p.drop_last());
    }
}

/// Every reached cell belongs to any set that contains the admitted seeds and
/// is closed under admissible steps.
pub proof fn lemma_reach_in_closed_set(
    edge_ok: spec_fn((int, int, int), (int, int, int)) -> bool,
    seed_ok: spec_fn((int, int, int)) -> bool,
    member: spec_fn((int, int, int)) -> bool,
    p: Seq<(int, int, int)>,
)
    requires
        ok_path(edge_ok, seed_ok, p),
        forall|c: (int, int, int)| #[trigger] seed_ok(c) ==> member(c),
        forall|a: (int, int, int), b: (int, int, int)|
            member(a) && #[trigger] edge_ok(a, b) ==> member(b),
    ensures
        member(p.last()),
    decreases p.len(),
{
    if p.len() == 1 {
        assert(seed_ok(p[0]));
    } else {
        lemma_reach_in_closed_set(edge_ok, seed_ok, member, p.drop_last());
        assert(p.drop_last().last() == p[p.len() - 2]);
        assert(edge_ok(p[p.len() - 2], p[p.len() - 1]));
    }
}

/// Number of cells of `s` that do not hold `fill`; the termination measure of
/// every traversal.
pub open spec fn count_unfilled<T>(s: Seq<T>, fill: T) -> int
    decreases s.len(),
{
    if s.len() == 0 {
        0
    } else {
        count_unfilled(s.drop_last(), fill) + if s.last() != fill {
            1int
        } else {
            0int
        }
    }
}

pub proof fn lemma_count_unfilled_nonneg<T>(s: Seq<T>, fill: T)
    ensures
        count_unfilled(s, fill) >= 0,
    decreases s.len(),
{
    if s.len() > 0 {
        lemma_count_unfilled_nonneg(s.drop_last(), fill);
    }
}

/// Writing `fill` over a cell that did not hold it shrinks the measure by one.
pub proof fn lemma_count_unfilled_update<T>(s: Seq<T>, fill: T, i: int)
    requires
        0 <= i < s.len(),
        s[i] != fill,
    ensures
        count_unfilled(s.update(i, fill), fill) == count_unfilled(s, fill) - 1,
    decreases s.len(),
{
    let t = s.update(i, fill);
    if i == s.len() - 1 {
        assert(t.drop_last() =~= s.drop_last());
    } else {
        assert(t.drop_last() =~= s.drop_last().update(i, fill));
        lemma_count_unfilled_update(s.drop_last(), fill, i);
        assert(t.last() == s.last());
    }
}

/// Membership of a coordinate triple in the work queue.
pub open spec fn in_queue(q: Seq<(usize, usize, usize)>, c: (int, int, int)) -> bool {
    exists|i: int|
        0 <= i < q.len() && (#[trigger] q[i]).0 == c.0 && q[i].1 == c.1 && q[i].2 == c.2
}

/// Rotating the head of the queue to its back does not change membership.
pub proof fn lemma_in_queue_shift(q: Seq<(usize, usize, usize)>, a: (int, int, int))
    requires
        q.len() >= 1,
    ensures
        in_queue(q, a) <==> in_queue(q.drop_first().push(q[0]), a),
{
    let r = q.drop_first().push(q[0]);
    if in_queue(q, a) {
        let i = choose|i: int|
            0 <= i < q.len() && (#[trigger] q[i]).0 == a.0 && q[i].1 == a.1 && q[i].2 == a.2;
        if i == 0 {
            assert(r[r.len() - 1] == q[0]);
        } else {
            assert(r[i - 1] == q[i]);
        }
        assert(in_queue(r, a));
    }
    if in_queue(r, a) {
        let i = choose|i: int|
            0 <= i < r.len() && (#[trigger] r[i]).0 == a.0 && r[i].1 == a.1 && r[i].2 == a.2;
        if i == r.len() - 1 {
            assert(q[0] == r[i]);
        } else {
            assert(q[i + 1] == r[i]);
        }
        assert(in_queue(q, a));
    }
}

/// What holds of every cell in the work queue: in bounds, already marked,
/// and reached by an admissible path.
pub open spec fn trav_entry_ok<T>(
    out0: Grid3<T>,
    fill: T,
    out: Grid3<T>,
    edge_ok: spec_fn((int, int, int), (int, int, int)) -> bool,
    seed_ok: spec_fn((int, int, int)) -> bool,
    qq: (usize, usize, usize),
) -> bool {
    &&& out0.in_bounds(qq.0 as int, qq.1 as int, qq.2 as int)
    &&& out.val(qq.0 as int, qq.1 as int, qq.2 as int) == fill
    &&& reaches(edge_ok, seed_ok, (qq.0 as int, qq.1 as int, qq.2 as int))
}

/// State shared by every iteration of a traversal: shapes are stable, queued
/// cells are marked and reached, admitted seeds are marked, marked cells are
/// sound (previously marked or reached), unmarked cells are untouched, and
/// previously marked cells stay marked.
pub open spec fn trav_inv<T>(
    out0: Grid3<T>,
    fill: T,
    out: Grid3<T>,
    q: Seq<(usize, usize, usize)>,
    edge_ok: spec_fn((int, int, int), (int, int, int)) -> bool,
    seed_ok: spec_fn((int, int, int)) -> bool,
) -> bool {
    &&& out.wf()
    &&& out.dims() == out0.dims()
    &&& forall|qi: int|
        0 <= qi < q.len() ==> #[trigger] trav_entry_ok(out0, fill, out, edge_ok, seed_ok, q[qi])
    &&& forall|s: (int, int, int)|
        #[trigger] seed_ok(s) ==> out0.in_bounds(s.0, s.1, s.2) && out.val(s.0, s.1, s.2) == fill
    &&& forall|c: (int, int, int)|
        out0.in_bounds(c.0, c.1, c.2) && #[trigger] out.val(c.0, c.1, c.2) == fill ==> (out0.val(
            c.0,
            c.1,
            c.2,
        ) == fill || reaches(edge_ok, seed_ok, c))
    &&& forall|c: (int, int, int)|
        out0.in_bounds(c.0, c.1, c.2) && #[trigger] out.val(c.0, c.1, c.2) != fill ==> out.val(
            c.0,
            c.1,
            c.2,
        ) == out0.val(c.0, c.1, c.2)
    &&& forall|c: (int, int, int)|
        out0.in_bounds(c.0, c.1, c.2) && out0.val(c.0, c.1, c.2) == fill ==> #[trigger] out.val(
            c.0,
            c.1,
            c.2,
        ) == fill
}

/// No admissible successor of a marked cell that is neither pending nor a
/// wall is unmarked.  Cells that held `fill` before the call are walls, not
/// part of the traversal, so they are exempt unless they are admitted seeds.
pub open spec fn trav_closed<T>(
    out0: Grid3<T>,
    fill: T,
    out: Grid3<T>,
    edge_ok: spec_fn((int, int, int), (int, int, int)) -> bool,
    seed_ok: spec_fn((int, int, int)) -> bool,
    pend: Seq<(usize, usize, usize)>,
) -> bool {
    forall|a: (int, int, int), b: (int, int, int)|
        out.in_bounds(a.0, a.1, a.2) && #[trigger] out.val(a.0, a.1, a.2) == fill && (seed_ok(a)
            || out0.val(a.0, a.1, a.2) != fill) && !in_queue(pend, a) && #[trigger] edge_ok(a, b)
            && out0.in_bounds(b.0, b.1, b.2) ==> out.val(b.0, b.1, b.2) == fill
}

/// One neighbour visit: mark and enqueue `(nz, ny, nx)` if the variant's
/// predicate admitted it and it is unmarked.  The caller evaluated the
/// predicate (`admitted`) and the mark test (`unmarked`) on the current state;
/// the popped cell `(z, y, x)` stays exempt from the closure property, and
/// the termination measure does not grow.
pub fn trav_visit<T: Copy>(
    out: &mut Grid3<T>,
    fill: T,
    queue: &mut VecDeque<(usize, usize, usize)>,
    z: usize,
    y: usize,
    x: usize,
    nz: usize,
    ny: usize,
    nx: usize,
    admitted: bool,
    unmarked: bool,
    Ghost(out0): Ghost<Grid3<T>>,
    Ghost(edge_ok): Ghost<spec_fn((int, int, int), (int, int, int)) -> bool>,
    Ghost(seed_ok): Ghost<spec_fn((int, int, int)) -> bool>,
)
    requires
        trav_inv(out0, fill, *old(out), old(queue)@, edge_ok, seed_ok),
        trav_closed(out0, fill, *old(out), edge_ok, seed_ok, old(queue)@.push((z, y, x))),
        out0.in_bounds(z as int, y as int, x as int),
        out0.in_bounds(nz as int, ny as int, nx as int),
        reaches(edge_ok, seed_ok, (z as int, y as int, x as int)),
        unmarked <==> old(out).val(nz as int, ny as int, nx as int) != fill,
        unmarked ==> (edge_ok((z as int, y as int, x as int), (nz as int, ny as int, nx as int))
            <==> (admitted && out0.val(nz as int, ny as int, nx as int) != fill)),
    ensures
        trav_inv(out0, fill, *final(out), final(queue)@, edge_ok, seed_ok),
        trav_closed(out0, fill, *final(out), edge_ok, seed_ok, final(queue)@.push((z, y, x))),
        forall|c: (int, int, int)|
            out0.in_bounds(c.0, c.1, c.2) && #[trigger] old(out).val(c.0, c.1, c.2) == fill
                ==> final(out).val(c.0, c.1, c.2) == fill,
        forall|c: (int, int, int)|
            out0.in_bounds(c.0, c.1, c.2) && !(c.0 == nz as int && c.1 == ny as int && c.2
                == nx as int) ==> #[trigger] final(out).val(c.0, c.1, c.2) == old(out).val(
                c.0,
                c.1,
                c.2,
            ),
        edge_ok((z as int, y as int, x as int), (nz as int, ny as int, nx as int))
            ==> final(out).val(nz as int, ny as int, nx as int) == fill,
        forall|a: (int, int, int)| in_queue(old(queue)@, a) ==> in_queue(final(queue)@, a),
        count_unfilled(final(out).data@, fill) + final(queue)@.len() <= count_unfilled(
            old(out).data@,
            fill,
        ) + old(queue)@.len(),
{
    let ghost cc = (z as int, y as int, x as int);
    let ghost nn = (nz as int, ny as int, nx as int);
    if admitted && unmarked {
        proof {
            crate::grid::lemma_flat3_bounds(
                out.dz as int,
                out.dy as int,
                out.dx as int,
                nn.0,
                nn.1,
                nn.2,
            );
            lemma_count_unfilled_update(out.data@, fill, out.index_of(nn.0, nn.1, nn.2));
            assert(out0.val(nn.0, nn.1, nn.2) != fill);
            assert(edge_ok(cc, nn));
            lemma_reach_step(edge_ok, seed_ok, cc, nn);
        }
        out.set(nz, ny, nx, fill);
        queue.push_back((nz, ny, nx));
        proof {
            let q1 = queue@;
            let pend1 = q1.push((z, y, x));
            assert(q1 == old(queue)@.push((nz, ny, nx)));
            assert forall|a: (int, int, int)| in_queue(old(queue)@, a) implies in_queue(
                q1,
                a,
            ) by {
                let i = choose|i: int|
                    0 <= i < old(queue)@.len() && (#[trigger] old(queue)@[i]).0 == a.0 && old(
                        queue,
                    )@[i].1 == a.1 && old(queue)@[i].2 == a.2;
                assert(q1[i] == old(queue)@[i]);
            }
            assert forall|qi: int| 0 <= qi < q1.len() implies #[trigger] trav_entry_ok(
                out0,
                fill,
                *out,
                edge_ok,
                seed_ok,
                q1[qi],
            ) by {
                if qi < old(queue)@.len() {
                    assert(q1[qi] == old(queue)@[qi]);
                    assert(trav_entry_ok(out0, fill, *old(out), edge_ok, seed_ok, old(queue)@[qi]));
                } else {
                    assert(q1[qi] == (nz, ny, nx));
                }
            }
            assert forall|a: (int, int, int), b: (int, int, int)|
                out.in_bounds(a.0, a.1, a.2) && #[trigger] out.val(a.0, a.1, a.2) == fill && (
                seed_ok(a) || out0.val(a.0, a.1, a.2) != fill) && !in_queue(pend1, a)
                    && #[trigger] edge_ok(a, b) && out0.in_bounds(b.0, b.1, b.2) implies out.val(
                b.0,
                b.1,
                b.2,
            ) == fill by {
                if a.0 == nn.0 && a.1 == nn.1 && a.2 == nn.2 {
                    assert(pend1[q1.len() - 1] == q1[q1.len() - 1]);
                    assert(q1[q1.len() - 1] == (nz, ny, nx));
                    assert(in_queue(pend1, a));
                } else {
                    assert(old(out).val(a.0, a.1, a.2) == fill);
                    assert(!in_queue(old(queue)@.push((z, y, x)), a)) by {
                        if in_queue(old(queue)@.push((z, y, x)), a) {
                            let opend = old(queue)@.push((z, y, x));
                            let i = choose|i: int|
                                0 <= i < opend.len() && (#[trigger] opend[i]).0 == a.0
                                    && opend[i].1 == a.1 && opend[i].2 == a.2;
                            if i < old(queue)@.len() {
                                assert(pend1[i] == q1[i]);
                                assert(q1[i] == old(queue)@[i]);
                                assert(old(queue)@[i] == opend[i]);
                            } else {
                                assert(opend[i] == (z, y, x));
                                assert(pend1[pend1.len() - 1] == (z, y, x));
                            }
                            assert(in_queue(pend1, a));
                        }
                    }
                    assert(old(out).val(b.0, b.1, b.2) == fill);
                }
            }
        }
    }
}


/// Lexicographic order on structuring-element offsets, the order in which the
/// traversal examines them.
pub open spec fn off_lex_lt(k2: int, j2: int, i2: int, kk: int, jj: int, ii: int) -> bool {
    k2 < kk || (k2 == kk && (j2 < jj || (j2 == jj && i2 < ii)))
}

/// The offset `(k2, j2, i2)` of the popped cell `cc` has been examined: if it
/// is a non-zero element cell and an admissible step leads to its in-bounds
/// target, the target is marked.
pub open spec fn strel_handled<T>(
    out: Grid3<T>,
    fill: T,
    edge_ok: spec_fn((int, int, int), (int, int, int)) -> bool,
    strct: Grid3<u8>,
    cc: (int, int, int),
    k2: int,
    j2: int,
    i2: int,
) -> bool {
    {
        let t = strel_target(strct, cc, k2, j2, i2);
        (strct.val(k2, j2, i2) != 0 && out.in_bounds(t.0, t.1, t.2) && edge_ok(cc, t)) ==> out.val(
            t.0,
            t.1,
            t.2,
        ) == fill
    }
}

/// All offsets lexicographically before `(kk, jj, ii)` have been examined.
pub open spec fn strel_prefix_handled<T>(
    out: Grid3<T>,
    fill: T,
    edge_ok: spec_fn((int, int, int), (int, int, int)) -> bool,
    strct: Grid3<u8>,
    cc: (int, int, int),
    kk: int,
    jj: int,
    ii: int,
) -> bool {
    forall|k2: int, j2: int, i2: int|
        0 <= k2 < strct.dz && 0 <= j2 < strct.dy && 0 <= i2 < strct.dx && off_lex_lt(
            k2,
            j2,
            i2,
            kk,
            jj,
            ii,
        ) ==> #[trigger] strel_handled(out, fill, edge_ok, strct, cc, k2, j2, i2)
}

} // verus!
