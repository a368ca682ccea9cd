//! Region growing over 3-D volumes and hole filling by component size.
//!
//! All variants instantiate the shared traversal of [`crate::traverse`]: a
//! work queue seeded with one or more cells; popping a cell examines its
//! neighbours (6-connectivity or the non-zero offsets of a structuring
//! element) and marks and enqueues each neighbour that satisfies the
//! variant's predicate and is not marked yet.
//!
//! The contracts pin down the exact set of cells that end up marked: a cell is
//! marked iff it was marked before the call or a path of admissible steps
//! leads to it from an admitted seed.  Cells that already held the fill value
//! before the call are never enqueued, so they act as walls; this is part of
//! the stated semantics.

use vstd::prelude::*;

use crate::grid::Grid3;
use crate::traverse::{
    adj6, adj_strel, count_unfilled, in_queue, lemma_count_unfilled_nonneg,
    lemma_count_unfilled_update, lemma_in_queue_shift, lemma_reach_in_closed_set, lemma_reach_mono,
    lemma_reach_seed, lemma_reach_step, off_lex_lt, ok_path, reaches, strel_handled,
    strel_prefix_handled, strel_target, trav_closed, trav_entry_ok, trav_inv, trav_visit,
};
use std::collections::VecDeque;

verus! {

/// Admissible step of the exact-value flood fill: a 6-neighbour whose data
/// value is exactly `v` and whose output cell did not hold `fill` before the
/// call.
pub open spec fn ff_edge(
    data: Grid3<i16>,
    out0: Grid3<u8>,
    v: i16,
    fill: u8,
) -> spec_fn((int, int, int), (int, int, int)) -> bool {
    |a: (int, int, int), b: (int, int, int)|
        adj6(a, b) && data.in_bounds(b.0, b.1, b.2) && data.val(b.0, b.1, b.2) == v && out0.val(
            b.0,
            b.1,
            b.2,
        ) != fill
}

/// The single seed of the exact-value flood fill, admitted unconditionally.
pub open spec fn single_seed(s: (int, int, int)) -> spec_fn((int, int, int)) -> bool {
    |c: (int, int, int)| c == s
}

/// The set grown by the exact-value flood fill seeded at `(z, y, x)` in
/// volume order (the entry point takes `(i, j, k) = (x, y, z)`).
pub open spec fn ff_reaches(
    data: Grid3<i16>,
    out0: Grid3<u8>,
    v: i16,
    fill: u8,
    seed: (int, int, int),
    c: (int, int, int),
) -> bool {
    reaches(ff_edge(data, out0, v, fill), single_seed(seed), c)
}

/// Neighbour visit of the exact-value flood fill: evaluates the predicate on
/// the current state and hands the step to the shared traversal.
fn ff_visit(
    data: &Grid3<i16>,
    v: i16,
    fill: u8,
    out: &mut Grid3<u8>,
    queue: &mut VecDeque<(usize, usize, usize)>,
    z: usize,
    y: usize,
    x: usize,
    nz: usize,
    ny: usize,
    nx: usize,
    Ghost(out0): Ghost<Grid3<u8>>,
    Ghost(seed): Ghost<(int, int, int)>,
)
    requires
        data.wf(),
        data.dims() == out0.dims(),
        trav_inv(out0, fill, *old(out), old(queue)@, ff_edge(*data, out0, v, fill), single_seed(seed)),
        trav_closed(
            out0,
            fill,
            *old(out),
            ff_edge(*data, out0, v, fill),
            single_seed(seed),
            old(queue)@.push((z, y, x)),
        ),
        out0.in_bounds(z as int, y as int, x as int),
        out0.in_bounds(nz as int, ny as int, nx as int),
        adj6((z as int, y as int, x as int), (nz as int, ny as int, nx as int)),
        reaches(ff_edge(*data, out0, v, fill), single_seed(seed), (z as int, y as int, x as int)),
    ensures
        trav_inv(out0, fill, *final(out), final(queue)@, ff_edge(*data, out0, v, fill), single_seed(seed)),
        trav_closed(
            out0,
            fill,
            *final(out),
            ff_edge(*data, out0, v, fill),
            single_seed(seed),
            final(queue)@.push((z, y, x)),
        ),
        forall|c: (int, int, int)|
            out0.in_bounds(c.0, c.1, c.2) && #[trigger] old(out).val(c.0, c.1, c.2) == fill
                ==> final(out).val(c.0, c.1, c.2) == fill,
        forall|c: (int, int, int)|
            out0.in_bounds(c.0, c.1, c.2) && !(c.0 == nz as int && c.1 == ny as int && c.2
                == nx as int) ==> #[trigger] final(out).val(c.0, c.1, c.2) == old(out).val(
                c.0,
                c.1,
                c.2,
            ),
        ff_edge(*data, out0, v, fill)(
            (z as int, y as int, x as int),
            (nz as int, ny as int, nx as int),
        ) ==> final(out).val(nz as int, ny as int, nx as int) == fill,
        forall|a: (int, int, int)| in_queue(old(queue)@, a) ==> in_queue(final(queue)@, a),
        count_unfilled(final(out).data@, fill) + final(queue)@.len() <= count_unfilled(
            old(out).data@,
            fill,
        ) + old(queue)@.len(),
{
    let ghost cc = (z as int, y as int, x as int);
    let ghost nn = (nz as int, ny as int, nx as int);
    let admitted = data.get(nz, ny, nx) == v;
    let unmarked = out.get(nz, ny, nx) != fill;
    proof {
        assert(adj6(cc, nn));
        if unmarked {
            assert(out.val(nn.0, nn.1, nn.2) == out0.val(nn.0, nn.1, nn.2));
            assert(ff_edge(*data, out0, v, fill)(cc, nn) <==> (admitted && out0.val(
                nn.0,
                nn.1,
                nn.2,
            ) != fill));
        }
    }
    trav_visit(
        out,
        fill,
        queue,
        z,
        y,
        x,
        nz,
        ny,
        nx,
        admitted,
        unmarked,
        Ghost(out0),
        Ghost(ff_edge(*data, out0, v, fill)),
        Ghost(single_seed(seed)),
    );
}

/// Exact-value flood fill with 6-connectivity and a FIFO queue.
///
/// The seed is `(i, j, k) = (x, y, z)`; it is marked unconditionally.  Every
/// other cell is marked iff it already held `fill` or an admissible path from
/// the seed ends on it: each step moves to a 6-neighbour whose data value is
/// exactly `v` and whose output cell did not hold `fill` before the call.
/// All other cells keep their previous value.
pub fn floodfill_internal(
    data: &Grid3<i16>,
    i: usize,
    j: usize,
    k: usize,
    v: i16,
    fill: u8,
    out: &mut Grid3<u8>,
)
    requires
        data.wf(),
        old(out).wf(),
        data.dims() == old(out).dims(),
        data.in_bounds(k as int, j as int, i as int),
    ensures
        final(out).wf(),
        final(out).dims() == old(out).dims(),
        forall|c: (int, int, int)|
            old(out).in_bounds(c.0, c.1, c.2) ==> #[trigger] final(out).val(c.0, c.1, c.2) == (
            if old(out).val(c.0, c.1, c.2) == fill || ff_reaches(
                *data,
                *old(out),
                v,
                fill,
                (k as int, j as int, i as int),
                c,
            ) {
                fill
            } else {
                old(out).val(c.0, c.1, c.2)
            }),
{
    let ghost out0 = *old(out);
    let ghost seed = (k as int, j as int, i as int);
    let ghost edge_ok = ff_edge(*data, out0, v, fill);
    let ghost seed_ok = single_seed(seed);

    let mut queue: VecDeque<(usize, usize, usize)> = VecDeque::new();
    queue.push_back((k, j, i));
    out.set(k, j, i, fill);
    proof {
        lemma_reach_seed(edge_ok, seed_ok, seed);
        assert(queue@[0] == (k, j, i));
        assert forall|s: (int, int, int)| #[trigger] seed_ok(s) implies out0.in_bounds(
            s.0,
            s.1,
            s.2,
        ) && out.val(s.0, s.1, s.2) == fill by {
            assert(s == seed);
        }
        assert forall|a: (int, int, int)|
            out.in_bounds(a.0, a.1, a.2) && #[trigger] out.val(a.0, a.1, a.2) == fill && (seed_ok(a)
                || out0.val(a.0, a.1, a.2) != fill) implies (out0.val(a.0, a.1, a.2) == fill || a
            == seed) by {}
        assert(in_queue(queue@, seed)) by {
            assert(queue@[0] == (k, j, i));
        }
    }

    while queue.len() != 0
        invariant
            edge_ok == ff_edge(*data, out0, v, fill),
            seed_ok == single_seed(seed),
            data.wf(),
            data.dims() == out0.dims(),
            trav_inv(out0, fill, *out, queue@, edge_ok, seed_ok),
            trav_closed(out0, fill, *out, edge_ok, seed_ok, queue@),
        decreases count_unfilled(out.data@, fill) + queue@.len(),
    {
        proof {
            lemma_count_unfilled_nonneg(out.data@, fill);
        }
        let ghost queue_start = queue@;
        let c = queue.pop_front().unwrap();
        let (z, y, x) = c;
        let ghost cc = (z as int, y as int, x as int);
        proof {
            assert(queue_start[0] == c);
            assert(trav_entry_ok(out0, fill, *out, edge_ok, seed_ok, queue_start[0]));
            assert forall|qi: int| 0 <= qi < queue@.len() implies #[trigger] trav_entry_ok(
                out0,
                fill,
                *out,
                edge_ok,
                seed_ok,
                queue@[qi],
            ) by {
                assert(queue@[qi] == queue_start[qi + 1]);
                assert(trav_entry_ok(out0, fill, *out, edge_ok, seed_ok, queue_start[qi + 1]));
            }
            assert forall|a: (int, int, int), b: (int, int, int)|
                out.in_bounds(a.0, a.1, a.2) && #[trigger] out.val(a.0, a.1, a.2) == fill && (
                seed_ok(a) || out0.val(a.0, a.1, a.2) != fill) && !in_queue(queue@.push(c), a)
                    && #[trigger] edge_ok(a, b) && out0.in_bounds(b.0, b.1, b.2) implies out.val(
                b.0,
                b.1,
                b.2,
            ) == fill by {
                lemma_in_queue_shift(queue_start, a);
                assert(!in_queue(queue_start, a));
            }
        }

        if z + 1 < data.dz {
            ff_visit(data, v, fill, out, &mut queue, z, y, x, z + 1, y, x, Ghost(out0), Ghost(seed));
        }
        if z > 0 {
            ff_visit(data, v, fill, out, &mut queue, z, y, x, z - 1, y, x, Ghost(out0), Ghost(seed));
        }
        if y + 1 < data.dy {
            ff_visit(data, v, fill, out, &mut queue, z, y, x, z, y + 1, x, Ghost(out0), Ghost(seed));
        }
        if y > 0 {
            ff_visit(data, v, fill, out, &mut queue, z, y, x, z, y - 1, x, Ghost(out0), Ghost(seed));
        }
        if x + 1 < data.dx {
            ff_visit(data, v, fill, out, &mut queue, z, y, x, z, y, x + 1, Ghost(out0), Ghost(seed));
        }
        if x > 0 {
            ff_visit(data, v, fill, out, &mut queue, z, y, x, z, y, x - 1, Ghost(out0), Ghost(seed));
        }

        proof {
            lemma_count_unfilled_nonneg(out.data@, fill);
            assert forall|a: (int, int, int), b: (int, int, int)|
                out.in_bounds(a.0, a.1, a.2) && #[trigger] out.val(a.0, a.1, a.2) == fill && (
                seed_ok(a) || out0.val(a.0, a.1, a.2) != fill) && !in_queue(queue@, a)
                    && #[trigger] edge_ok(a, b) && out0.in_bounds(b.0, b.1, b.2) implies out.val(
                b.0,
                b.1,
                b.2,
            ) == fill by {
                if a == cc {
                    assert(adj6(cc, b));
                    assert(out.val(b.0, b.1, b.2) == fill);
                } else {
                    assert(!in_queue(queue@.push(c), a)) by {
                        if in_queue(queue@.push(c), a) {
                            let qi = choose|qi: int|
                                0 <= qi < queue@.push(c).len() && (#[trigger] queue@.push(
                                    c,
                                )[qi]).0 == a.0 && queue@.push(c)[qi].1 == a.1 && queue@.push(
                                    c,
                                )[qi].2 == a.2;
                            assert(qi < queue@.len());
                            assert(queue@[qi] == queue@.push(c)[qi]);
                            assert(in_queue(queue@, a));
                        }
                    }
                }
            }
        }
    }

    proof {
        assert forall|c: (int, int, int)|
            out0.in_bounds(c.0, c.1, c.2) implies #[trigger] out.val(c.0, c.1, c.2) == (
        if out0.val(c.0, c.1, c.2) == fill || ff_reaches(*data, out0, v, fill, seed, c) {
            fill
        } else {
            out0.val(c.0, c.1, c.2)
        }) by {
            if ff_reaches(*data, out0, v, fill, seed, c) {
                let member = |m: (int, int, int)|
                    out0.in_bounds(m.0, m.1, m.2) && out.val(m.0, m.1, m.2) == fill && (seed_ok(m)
                        || out0.val(m.0, m.1, m.2) != fill);
                let p = choose|p: Seq<(int, int, int)>|
                    ok_path(edge_ok, seed_ok, p) && p.last() == c;
                assert forall|s: (int, int, int)| #[trigger] seed_ok(s) implies member(s) by {
                    assert(s == seed);
                }
                assert forall|a: (int, int, int), b: (int, int, int)|
                    member(a) && #[trigger] edge_ok(a, b) implies member(b) by {
                    assert(out.val(a.0, a.1, a.2) == fill);
                    assert(!in_queue(queue@, a));
                    assert(out0.in_bounds(b.0, b.1, b.2) && out0.val(b.0, b.1, b.2) != fill);
                    assert(out.val(b.0, b.1, b.2) == fill);
                }
                lemma_reach_in_closed_set(edge_ok, seed_ok, member, p);
            }
        }
    }
}


/// Admissible step of the value-adaptive flood fill: a 6-neighbour, not a
/// wall, whose data value lies inside the window that the popped cell's own
/// value selects from the threshold tables (indexed by value minus the
/// smallest 16-bit value).
pub open spec fn at_edge(
    data: Grid3<i16>,
    out0: Grid3<u8>,
    tlo: Seq<i16>,
    thi: Seq<i16>,
    fill: u8,
) -> spec_fn((int, int, int), (int, int, int)) -> bool {
    |a: (int, int, int), b: (int, int, int)|
        adj6(a, b) && data.in_bounds(b.0, b.1, b.2) && out0.val(b.0, b.1, b.2) != fill && tlo[
            data.val(a.0, a.1, a.2) + 32768
        ] <= data.val(b.0, b.1, b.2) && data.val(b.0, b.1, b.2) <= thi[
            data.val(a.0, a.1, a.2) + 32768
        ]
}

/// The seeds of a multi-seed traversal, given as `(i, j, k) = (x, y, z)`
/// triples and admitted unconditionally.
pub open spec fn seed_list(data: Grid3<i16>, seeds: Seq<(usize, usize, usize)>) -> spec_fn(
    (int, int, int),
) -> bool {
    |c: (int, int, int)|
        data.in_bounds(c.0, c.1, c.2) && exists|si: int|
            0 <= si < seeds.len() && c == ((#[trigger] seeds[si]).2 as int, seeds[si].1 as int, seeds[si].0 as int)
}

/// The set grown by the value-adaptive flood fill.
pub open spec fn at_reaches(
    data: Grid3<i16>,
    out0: Grid3<u8>,
    tlo: Seq<i16>,
    thi: Seq<i16>,
    fill: u8,
    seeds: Seq<(usize, usize, usize)>,
    c: (int, int, int),
) -> bool {
    reaches(at_edge(data, out0, tlo, thi, fill), seed_list(data, seeds), c)
}

/// Neighbour visit of the value-adaptive flood fill: evaluates the window of
/// the popped cell's value on the current state and hands the step to the
/// shared traversal.
fn at_visit(
    data: &Grid3<i16>,
    tlo: &Vec<i16>,
    thi: &Vec<i16>,
    fill: u8,
    out: &mut Grid3<u8>,
    queue: &mut VecDeque<(usize, usize, usize)>,
    z: usize,
    y: usize,
    x: usize,
    nz: usize,
    ny: usize,
    nx: usize,
    Ghost(out0): Ghost<Grid3<u8>>,
    Ghost(seeds): Ghost<Seq<(usize, usize, usize)>>,
)
    requires
        data.wf(),
        data.dims() == out0.dims(),
        tlo@.len() == 65536,
        thi@.len() == 65536,
        trav_inv(
            out0,
            fill,
            *old(out),
            old(queue)@,
            at_edge(*data, out0, tlo@, thi@, fill),
            seed_list(*data, seeds),
        ),
        trav_closed(
            out0,
            fill,
            *old(out),
            at_edge(*data, out0, tlo@, thi@, fill),
            seed_list(*data, seeds),
            old(queue)@.push((z, y, x)),
        ),
        out0.in_bounds(z as int, y as int, x as int),
        out0.in_bounds(nz as int, ny as int, nx as int),
        adj6((z as int, y as int, x as int), (nz as int, ny as int, nx as int)),
        reaches(
            at_edge(*data, out0, tlo@, thi@, fill),
            seed_list(*data, seeds),
            (z as int, y as int, x as int),
        ),
    ensures
        trav_inv(
            out0,
            fill,
            *final(out),
            final(queue)@,
            at_edge(*data, out0, tlo@, thi@, fill),
            seed_list(*data, seeds),
        ),
        trav_closed(
            out0,
            fill,
            *final(out),
            at_edge(*data, out0, tlo@, thi@, fill),
            seed_list(*data, seeds),
            final(queue)@.push((z, y, x)),
        ),
        forall|c: (int, int, int)|
            out0.in_bounds(c.0, c.1, c.2) && #[trigger] old(out).val(c.0, c.1, c.2) == fill
                ==> final(out).val(c.0, c.1, c.2) == fill,
        at_edge(*data, out0, tlo@, thi@, fill)(
            (z as int, y as int, x as int),
            (nz as int, ny as int, nx as int),
        ) ==> final(out).val(nz as int, ny as int, nx as int) == fill,
        forall|a: (int, int, int)| in_queue(old(queue)@, a) ==> in_queue(final(queue)@, a),
        count_unfilled(final(out).data@, fill) + final(queue)@.len() <= count_unfilled(
            old(out).data@,
            fill,
        ) + old(queue)@.len(),
{
    let ghost cc = (z as int, y as int, x as int);
    let ghost nn = (nz as int, ny as int, nx as int);
    let vc = data.get(z, y, x);
    let idx: usize = (vc as i32 + 32768) as usize;
    let t0v = tlo[idx];
    let t1v = thi[idx];
    let nb = data.get(nz, ny, nx);
    let admitted = t0v <= nb && nb <= t1v;
    let unmarked = out.get(nz, ny, nx) != fill;
    proof {
        assert(idx == data.val(cc.0, cc.1, cc.2) + 32768);
        if unmarked {
            assert(out.val(nn.0, nn.1, nn.2) == out0.val(nn.0, nn.1, nn.2));
            assert(at_edge(*data, out0, tlo@, thi@, fill)(cc, nn) <==> (admitted && out0.val(
                nn.0,
                nn.1,
                nn.2,
            ) != fill));
        }
    }
    trav_visit(
        out,
        fill,
        queue,
        z,
        y,
        x,
        nz,
        ny,
        nx,
        admitted,
        unmarked,
        Ghost(out0),
        Ghost(at_edge(*data, out0, tlo@, thi@, fill)),
        Ghost(seed_list(*data, seeds)),
    );
}

/// Value-adaptive flood fill with 6-connectivity and a FIFO queue.
///
/// Every seed `(i, j, k) = (x, y, z)` is marked and enqueued unconditionally.
/// When a cell is popped, its own data value `w` selects the window
/// `[tlo[w + 32768], thi[w + 32768]]`, and each 6-neighbour whose data value
/// lies inside that window and whose output cell did not hold `fill` before
/// the call is marked and enqueued.  A cell ends up marked iff it already
/// held `fill`, is a seed, or such a step path from a seed ends on it; all
/// other cells keep their previous value.  The tables hold one window bound
/// per 16-bit value.
pub fn floodfill_auto_threshold(
    data: &Grid3<i16>,
    seeds: &Vec<(usize, usize, usize)>,
    tlo: &Vec<i16>,
    thi: &Vec<i16>,
    fill: u8,
    out: &mut Grid3<u8>,
)
    requires
        data.wf(),
        old(out).wf(),
        data.dims() == old(out).dims(),
        tlo@.len() == 65536,
        thi@.len() == 65536,
        forall|si: int|
            0 <= si < seeds@.len() ==> data.in_bounds(
                (#[trigger] seeds@[si]).2 as int,
                seeds@[si].1 as int,
                seeds@[si].0 as int,
            ),
    ensures
        final(out).wf(),
        final(out).dims() == old(out).dims(),
        forall|c: (int, int, int)|
            old(out).in_bounds(c.0, c.1, c.2) ==> #[trigger] final(out).val(c.0, c.1, c.2) == (
            if old(out).val(c.0, c.1, c.2) == fill || at_reaches(
                *data,
                *old(out),
                tlo@,
                thi@,
                fill,
                seeds@,
                c,
            ) {
                fill
            } else {
                old(out).val(c.0, c.1, c.2)
            }),
{
    let ghost out0 = *old(out);
    let ghost edge_ok = at_edge(*data, out0, tlo@, thi@, fill);

    let mut queue: VecDeque<(usize, usize, usize)> = VecDeque::new();

    let mut si: usize = 0;
    while si < seeds.len()
        invariant
            edge_ok == at_edge(*data, out0, tlo@, thi@, fill),
            data.wf(),
            data.dims() == out0.dims(),
            tlo@.len() == 65536,
            thi@.len() == 65536,
            si <= seeds@.len(),
            forall|sj: int|
                0 <= sj < seeds@.len() ==> data.in_bounds(
                    (#[trigger] seeds@[sj]).2 as int,
                    seeds@[sj].1 as int,
                    seeds@[sj].0 as int,
                ),
            trav_inv(out0, fill, *out, queue@, edge_ok, seed_list(*data, seeds@.take(si as int))),
            trav_closed(
                out0,
                fill,
                *out,
                edge_ok,
                seed_list(*data, seeds@.take(si as int)),
                queue@,
            ),
        decreases seeds@.len() - si,
    {
        let (i, j, k) = seeds[si];
        let ghost pre = seeds@.take(si as int);
        let ghost post = seeds@.take(si as int + 1);
        let ghost sc = (k as int, j as int, i as int);
        proof {
            assert(seeds@[si as int] == (i, j, k));
            assert forall|s: (int, int, int)|
                #[trigger] seed_list(*data, pre)(s) implies seed_list(*data, post)(s) by {
                let wi = choose|wi: int|
                    0 <= wi < pre.len() && s == ((#[trigger] pre[wi]).2 as int, pre[wi].1 as int, pre[wi].0 as int);
                assert(post[wi] == pre[wi]);
            }
            assert(seed_list(*data, post)(sc)) by {
                assert(post[si as int] == (i, j, k));
            }
        }
        let ghost q0 = queue@;
        let ghost out_pre = *out;
        queue.push_back((k, j, i));
        out.set(k, j, i, fill);
        proof {
            lemma_reach_seed(edge_ok, seed_list(*data, post), sc);
            let q1 = queue@;
            assert(q1[q1.len() - 1] == (k, j, i));
            assert forall|qi: int| 0 <= qi < q1.len() implies #[trigger] trav_entry_ok(
                out0,
                fill,
                *out,
                edge_ok,
                seed_list(*data, post),
                q1[qi],
            ) by {
                if qi < q1.len() - 1 {
                    assert(q1[qi] == q0[qi]);
                    assert(trav_entry_ok(
                        out0,
                        fill,
                        out_pre,
                        edge_ok,
                        seed_list(*data, pre),
                        q1[qi],
                    ));
                    lemma_reach_mono(
                        edge_ok,
                        seed_list(*data, pre),
                        seed_list(*data, post),
                        (q1[qi].0 as int, q1[qi].1 as int, q1[qi].2 as int),
                    );
                }
            }
            assert forall|s: (int, int, int)|
                #[trigger] seed_list(*data, post)(s) implies out0.in_bounds(s.0, s.1, s.2)
                    && out.val(s.0, s.1, s.2) == fill by {
                if s != sc {
                    assert(seed_list(*data, pre)(s)) by {
                        let wi = choose|wi: int|
                            0 <= wi < post.len() && s == ((#[trigger] post[wi]).2 as int, post[wi].1 as int, post[wi].0 as int);
                        assert(wi < si as int);
                        assert(pre[wi] == post[wi]);
                    }
                }
            }
            assert forall|c: (int, int, int)|
                out0.in_bounds(c.0, c.1, c.2) && #[trigger] out.val(c.0, c.1, c.2) == fill implies (
            out0.val(c.0, c.1, c.2) == fill || reaches(edge_ok, seed_list(*data, post), c)) by {
                if c != sc && out0.val(c.0, c.1, c.2) != fill {
                    assert(reaches(edge_ok, seed_list(*data, pre), c));
                    lemma_reach_mono(edge_ok, seed_list(*data, pre), seed_list(*data, post), c);
                }
            }
            assert forall|a: (int, int, int), b: (int, int, int)|
                out.in_bounds(a.0, a.1, a.2) && #[trigger] out.val(a.0, a.1, a.2) == fill && (
                seed_list(*data, post)(a) || out0.val(a.0, a.1, a.2) != fill) && !in_queue(
                    queue@,
                    a,
                ) && #[trigger] edge_ok(a, b) && out0.in_bounds(b.0, b.1, b.2) implies out.val(
                b.0,
                b.1,
                b.2,
            ) == fill by {
                assert(!in_queue(q0, a)) by {
                    if in_queue(q0, a) {
                        let wi = choose|wi: int|
                            0 <= wi < q0.len() && (#[trigger] q0[wi]).0 == a.0 && q0[wi].1 == a.1
                                && q0[wi].2 == a.2;
                        assert(queue@[wi] == q0[wi]);
                        assert(in_queue(queue@, a));
                    }
                }
                if a.0 == sc.0 && a.1 == sc.1 && a.2 == sc.2 {
                    assert(queue@[queue@.len() - 1] == (k, j, i));
                    assert(in_queue(queue@, a));
                } else {
                    assert(out_pre.val(a.0, a.1, a.2) == fill);
                    assert(seed_list(*data, post)(a) ==> seed_list(*data, pre)(a)) by {
                        if seed_list(*data, post)(a) {
                            let wi = choose|wi: int|
                                0 <= wi < post.len() && a == ((#[trigger] post[wi]).2 as int, post[wi].1 as int, post[wi].0 as int);
                            if wi < si as int {
                                assert(pre[wi] == post[wi]);
                                assert(seed_list(*data, pre)(a));
                            } else {
                                assert(post[wi] == (i, j, k));
                            }
                        }
                    }
                    assert(out_pre.val(b.0, b.1, b.2) == fill);
                }
            }
        }
        si = si + 1;
    }

    let ghost seed_ok = seed_list(*data, seeds@);
    proof {
        assert(seeds@.take(seeds@.len() as int) =~= seeds@);
    }

    while queue.len() != 0
        invariant
            edge_ok == at_edge(*data, out0, tlo@, thi@, fill),
            seed_ok == seed_list(*data, seeds@),
            data.wf(),
            data.dims() == out0.dims(),
            tlo@.len() == 65536,
            thi@.len() == 65536,
            trav_inv(out0, fill, *out, queue@, edge_ok, seed_ok),
            trav_closed(out0, fill, *out, edge_ok, seed_ok, queue@),
        decreases count_unfilled(out.data@, fill) + queue@.len(),
    {
        proof {
            lemma_count_unfilled_nonneg(out.data@, fill);
        }
        let ghost queue_start = queue@;
        let c = queue.pop_front().unwrap();
        let (z, y, x) = c;
        let ghost cc = (z as int, y as int, x as int);
        proof {
            assert(queue_start[0] == c);
            assert(trav_entry_ok(out0, fill, *out, edge_ok, seed_ok, queue_start[0]));
            assert forall|qi: int| 0 <= qi < queue@.len() implies #[trigger] trav_entry_ok(
                out0,
                fill,
                *out,
                edge_ok,
                seed_ok,
                queue@[qi],
            ) by {
                assert(queue@[qi] == queue_start[qi + 1]);
                assert(trav_entry_ok(out0, fill, *out, edge_ok, seed_ok, queue_start[qi + 1]));
            }
            assert forall|a: (int, int, int), b: (int, int, int)|
                out.in_bounds(a.0, a.1, a.2) && #[trigger] out.val(a.0, a.1, a.2) == fill && (
                seed_ok(a) || out0.val(a.0, a.1, a.2) != fill) && !in_queue(queue@.push(c), a)
                    && #[trigger] edge_ok(a, b) && out0.in_bounds(b.0, b.1, b.2) implies out.val(
                b.0,
                b.1,
                b.2,
            ) == fill by {
                lemma_in_queue_shift(queue_start, a);
                assert(!in_queue(queue_start, a));
            }
        }

        if z + 1 < data.dz {
            at_visit(data, tlo, thi, fill, out, &mut queue, z, y, x, z + 1, y, x, Ghost(out0), Ghost(seeds@));
        }
        if z > 0 {
            at_visit(data, tlo, thi, fill, out, &mut queue, z, y, x, z - 1, y, x, Ghost(out0), Ghost(seeds@));
        }
        if y + 1 < data.dy {
            at_visit(data, tlo, thi, fill, out, &mut queue, z, y, x, z, y + 1, x, Ghost(out0), Ghost(seeds@));
        }
        if y > 0 {
            at_visit(data, tlo, thi, fill, out, &mut queue, z, y, x, z, y - 1, x, Ghost(out0), Ghost(seeds@));
        }
        if x + 1 < data.dx {
            at_visit(data, tlo, thi, fill, out, &mut queue, z, y, x, z, y, x + 1, Ghost(out0), Ghost(seeds@));
        }
        if x > 0 {
            at_visit(data, tlo, thi, fill, out, &mut queue, z, y, x, z, y, x - 1, Ghost(out0), Ghost(seeds@));
        }

        proof {
            lemma_count_unfilled_nonneg(out.data@, fill);
            assert forall|a: (int, int, int), b: (int, int, int)|
                out.in_bounds(a.0, a.1, a.2) && #[trigger] out.val(a.0, a.1, a.2) == fill && (
                seed_ok(a) || out0.val(a.0, a.1, a.2) != fill) && !in_queue(queue@, a)
                    && #[trigger] edge_ok(a, b) && out0.in_bounds(b.0, b.1, b.2) implies out.val(
                b.0,
                b.1,
                b.2,
            ) == fill by {
                if a == cc {
                    assert(adj6(cc, b));
                    assert(out.val(b.0, b.1, b.2) == fill);
                } else {
                    assert(!in_queue(queue@.push(c), a)) by {
                        if in_queue(queue@.push(c), a) {
                            let qi = choose|qi: int|
                                0 <= qi < queue@.push(c).len() && (#[trigger] queue@.push(
                                    c,
                                )[qi]).0 == a.0 && queue@.push(c)[qi].1 == a.1 && queue@.push(
                                    c,
                                )[qi].2 == a.2;
                            assert(qi < queue@.len());
                            assert(queue@[qi] == queue@.push(c)[qi]);
                            assert(in_queue(queue@, a));
                        }
                    }
                }
            }
        }
    }

    proof {
        assert forall|c: (int, int, int)|
            out0.in_bounds(c.0, c.1, c.2) implies #[trigger] out.val(c.0, c.1, c.2) == (
        if out0.val(c.0, c.1, c.2) == fill || at_reaches(*data, out0, tlo@, thi@, fill, seeds@, c) {
            fill
        } else {
            out0.val(c.0, c.1, c.2)
        }) by {
            if at_reaches(*data, out0, tlo@, thi@, fill, seeds@, c) {
                let member = |m: (int, int, int)|
                    out0.in_bounds(m.0, m.1, m.2) && out.val(m.0, m.1, m.2) == fill && (seed_ok(m)
                        || out0.val(m.0, m.1, m.2) != fill);
                let p = choose|p: Seq<(int, int, int)>|
                    ok_path(edge_ok, seed_ok, p) && p.last() == c;
                assert forall|s: (int, int, int)| #[trigger] seed_ok(s) implies member(s) by {}
                assert forall|a: (int, int, int), b: (int, int, int)|
                    member(a) && #[trigger] edge_ok(a, b) implies member(b) by {
                    assert(out.val(a.0, a.1, a.2) == fill);
                    assert(!in_queue(queue@, a));
                    assert(out0.in_bounds(b.0, b.1, b.2) && out0.val(b.0, b.1, b.2) != fill);
                    assert(out.val(b.0, b.1, b.2) == fill);
                }
                lemma_reach_in_closed_set(edge_ok, seed_ok, member, p);
            }
        }
    }
}


/// Admissible step of the threshold flood fill: a structuring-element
/// neighbour whose data value lies in `[t0, t1]` and whose output cell did
/// not hold `fill` before the call.
pub open spec fn th_edge(
    data: Grid3<i16>,
    out0: Grid3<u8>,
    strct: Grid3<u8>,
    t0: i16,
    t1: i16,
    fill: u8,
) -> spec_fn((int, int, int), (int, int, int)) -> bool {
    |a: (int, int, int), b: (int, int, int)|
        adj_strel(strct, a, b) && data.in_bounds(b.0, b.1, b.2) && t0 <= data.val(b.0, b.1, b.2)
            && data.val(b.0, b.1, b.2) <= t1 && out0.val(b.0, b.1, b.2) != fill
}

/// The seeds of the threshold flood fill, given as `(i, j, k) = (x, y, z)`
/// triples; a seed is admitted only if its data value lies in `[t0, t1]`.
pub open spec fn th_seed_ok(
    data: Grid3<i16>,
    seeds: Seq<(usize, usize, usize)>,
    t0: i16,
    t1: i16,
) -> spec_fn((int, int, int)) -> bool {
    |c: (int, int, int)|
        data.in_bounds(c.0, c.1, c.2) && t0 <= data.val(c.0, c.1, c.2) && data.val(c.0, c.1, c.2)
            <= t1 && exists|si: int|
            0 <= si < seeds.len() && c == ((#[trigger] seeds[si]).2 as int, seeds[si].1 as int, seeds[si].0 as int)
}

/// The set grown by the threshold flood fill.
pub open spec fn th_reaches(
    data: Grid3<i16>,
    out0: Grid3<u8>,
    strct: Grid3<u8>,
    seeds: Seq<(usize, usize, usize)>,
    t0: i16,
    t1: i16,
    fill: u8,
    c: (int, int, int),
) -> bool {
    reaches(th_edge(data, out0, strct, t0, t1, fill), th_seed_ok(data, seeds, t0, t1), c)
}

/// Neighbour visit of the threshold flood fill.
fn th_visit(
    data: &Grid3<i16>,
    strct: &Grid3<u8>,
    t0: i16,
    t1: i16,
    fill: u8,
    out: &mut Grid3<u8>,
    queue: &mut VecDeque<(usize, usize, usize)>,
    z: usize,
    y: usize,
    x: usize,
    nz: usize,
    ny: usize,
    nx: usize,
    Ghost(out0): Ghost<Grid3<u8>>,
    Ghost(seeds): Ghost<Seq<(usize, usize, usize)>>,
)
    requires
        data.wf(),
        data.dims() == out0.dims(),
        trav_inv(
            out0,
            fill,
            *old(out),
            old(queue)@,
            th_edge(*data, out0, *strct, t0, t1, fill),
            th_seed_ok(*data, seeds, t0, t1),
        ),
        trav_closed(
            out0,
            fill,
            *old(out),
            th_edge(*data, out0, *strct, t0, t1, fill),
            th_seed_ok(*data, seeds, t0, t1),
            old(queue)@.push((z, y, x)),
        ),
        out0.in_bounds(z as int, y as int, x as int),
        out0.in_bounds(nz as int, ny as int, nx as int),
        adj_strel(*strct, (z as int, y as int, x as int), (nz as int, ny as int, nx as int)),
        reaches(
            th_edge(*data, out0, *strct, t0, t1, fill),
            th_seed_ok(*data, seeds, t0, t1),
            (z as int, y as int, x as int),
        ),
    ensures
        trav_inv(
            out0,
            fill,
            *final(out),
            final(queue)@,
            th_edge(*data, out0, *strct, t0, t1, fill),
            th_seed_ok(*data, seeds, t0, t1),
        ),
        trav_closed(
            out0,
            fill,
            *final(out),
            th_edge(*data, out0, *strct, t0, t1, fill),
            th_seed_ok(*data, seeds, t0, t1),
            final(queue)@.push((z, y, x)),
        ),
        forall|c: (int, int, int)|
            out0.in_bounds(c.0, c.1, c.2) && #[trigger] old(out).val(c.0, c.1, c.2) == fill
                ==> final(out).val(c.0, c.1, c.2) == fill,
        th_edge(*data, out0, *strct, t0, t1, fill)(
            (z as int, y as int, x as int),
            (nz as int, ny as int, nx as int),
        ) ==> final(out).val(nz as int, ny as int, nx as int) == fill,
        forall|a: (int, int, int)| in_queue(old(queue)@, a) ==> in_queue(final(queue)@, a),
        count_unfilled(final(out).data@, fill) + final(queue)@.len() <= count_unfilled(
            old(out).data@,
            fill,
        ) + old(queue)@.len(),
{
    let ghost cc = (z as int, y as int, x as int);
    let ghost nn = (nz as int, ny as int, nx as int);
    let nb = data.get(nz, ny, nx);
    let admitted = t0 <= nb && nb <= t1;
    let unmarked = out.get(nz, ny, nx) != fill;
    proof {
        if unmarked {
            assert(out.val(nn.0, nn.1, nn.2) == out0.val(nn.0, nn.1, nn.2));
            assert(th_edge(*data, out0, *strct, t0, t1, fill)(cc, nn) <==> (admitted && out0.val(
                nn.0,
                nn.1,
                nn.2,
            ) != fill));
        }
    }
    trav_visit(
        out,
        fill,
        queue,
        z,
        y,
        x,
        nz,
        ny,
        nx,
        admitted,
        unmarked,
        Ghost(out0),
        Ghost(th_edge(*data, out0, *strct, t0, t1, fill)),
        Ghost(th_seed_ok(*data, seeds, t0, t1)),
    );
}

/// Threshold flood fill over a structuring element with a LIFO queue.
///
/// Each seed `(i, j, k) = (x, y, z)` is admitted, marked and enqueued only if
/// its data value lies in `[t0, t1]`.  When a cell is popped, every offset of
/// the structuring element with a non-zero entry is examined in order; an
/// in-bounds target whose data value lies in `[t0, t1]` and whose output cell
/// did not hold `fill` before the call is marked and enqueued.  A cell ends
/// up marked iff it already held `fill`, is an admitted seed, or such a step
/// path from an admitted seed ends on it; all other cells keep their previous
/// value.
pub fn generic_floodfill_threshold(
    data: &Grid3<i16>,
    seeds: &Vec<(usize, usize, usize)>,
    t0: i16,
    t1: i16,
    fill: u8,
    strct: &Grid3<u8>,
    out: &mut Grid3<u8>,
)
    requires
        data.wf(),
        old(out).wf(),
        strct.wf(),
        data.dims() == old(out).dims(),
        data.dz + strct.dz <= usize::MAX,
        data.dy + strct.dy <= usize::MAX,
        data.dx + strct.dx <= usize::MAX,
        forall|si: int|
            0 <= si < seeds@.len() ==> data.in_bounds(
                (#[trigger] seeds@[si]).2 as int,
                seeds@[si].1 as int,
                seeds@[si].0 as int,
            ),
    ensures
        final(out).wf(),
        final(out).dims() == old(out).dims(),
        forall|c: (int, int, int)|
            old(out).in_bounds(c.0, c.1, c.2) ==> #[trigger] final(out).val(c.0, c.1, c.2) == (
            if old(out).val(c.0, c.1, c.2) == fill || th_reaches(
                *data,
                *old(out),
                *strct,
                seeds@,
                t0,
                t1,
                fill,
                c,
            ) {
                fill
            } else {
                old(out).val(c.0, c.1, c.2)
            }),
{
    let ghost out0 = *old(out);
    let ghost edge_ok = th_edge(*data, out0, *strct, t0, t1, fill);

    let mut queue: VecDeque<(usize, usize, usize)> = VecDeque::new();

    let mut si: usize = 0;
    while si < seeds.len()
        invariant
            edge_ok == th_edge(*data, out0, *strct, t0, t1, fill),
            data.wf(),
            strct.wf(),
            data.dims() == out0.dims(),
            si <= seeds@.len(),
            forall|sj: int|
                0 <= sj < seeds@.len() ==> data.in_bounds(
                    (#[trigger] seeds@[sj]).2 as int,
                    seeds@[sj].1 as int,
                    seeds@[sj].0 as int,
                ),
            trav_inv(
                out0,
                fill,
                *out,
                queue@,
                edge_ok,
                th_seed_ok(*data, seeds@.take(si as int), t0, t1),
            ),
            trav_closed(
                out0,
                fill,
                *out,
                edge_ok,
                th_seed_ok(*data, seeds@.take(si as int), t0, t1),
                queue@,
            ),
        decreases seeds@.len() - si,
    {
        let (i, j, k) = seeds[si];
        let ghost pre = seeds@.take(si as int);
        let ghost post = seeds@.take(si as int + 1);
        let ghost sc = (k as int, j as int, i as int);
        proof {
            assert(seeds@[si as int] == (i, j, k));
            assert forall|s: (int, int, int)|
                #[trigger] th_seed_ok(*data, pre, t0, t1)(s) implies th_seed_ok(
                *data,
                post,
                t0,
                t1,
            )(s) by {
                let wi = choose|wi: int|
                    0 <= wi < pre.len() && s == ((#[trigger] pre[wi]).2 as int, pre[wi].1 as int, pre[wi].0 as int);
                assert(post[wi] == pre[wi]);
            }
            assert forall|s: (int, int, int)|
                #[trigger] th_seed_ok(*data, post, t0, t1)(s) && s != sc implies th_seed_ok(
                *data,
                pre,
                t0,
                t1,
            )(s) by {
                let wi = choose|wi: int|
                    0 <= wi < post.len() && s == ((#[trigger] post[wi]).2 as int, post[wi].1 as int, post[wi].0 as int);
                assert(wi < si as int);
                assert(pre[wi] == post[wi]);
            }
        }
        let val = data.get(k, j, i);
        if t0 <= val && val <= t1 {
            let ghost q0 = queue@;
            let ghost out_pre = *out;
            queue.push_back((k, j, i));
            out.set(k, j, i, fill);
            proof {
                assert(th_seed_ok(*data, post, t0, t1)(sc)) by {
                    assert(post[si as int] == (i, j, k));
                }
                lemma_reach_seed(edge_ok, th_seed_ok(*data, post, t0, t1), sc);
                let q1 = queue@;
                assert(q1[q1.len() - 1] == (k, j, i));
                assert forall|qi: int| 0 <= qi < q1.len() implies #[trigger] trav_entry_ok(
                    out0,
                    fill,
                    *out,
                    edge_ok,
                    th_seed_ok(*data, post, t0, t1),
                    q1[qi],
                ) by {
                    if qi < q1.len() - 1 {
                        assert(q1[qi] == q0[qi]);
                        assert(trav_entry_ok(
                            out0,
                            fill,
                            out_pre,
                            edge_ok,
                            th_seed_ok(*data, pre, t0, t1),
                            q1[qi],
                        ));
                        lemma_reach_mono(
                            edge_ok,
                            th_seed_ok(*data, pre, t0, t1),
                            th_seed_ok(*data, post, t0, t1),
                            (q1[qi].0 as int, q1[qi].1 as int, q1[qi].2 as int),
                        );
                    }
                }
                assert forall|s: (int, int, int)|
                    #[trigger] th_seed_ok(*data, post, t0, t1)(s) implies out0.in_bounds(
                    s.0,
                    s.1,
                    s.2,
                ) && out.val(s.0, s.1, s.2) == fill by {
                    if s != sc {
                        assert(th_seed_ok(*data, pre, t0, t1)(s));
                    }
                }
                assert forall|c: (int, int, int)|
                    out0.in_bounds(c.0, c.1, c.2) && #[trigger] out.val(c.0, c.1, c.2) == fill
                        implies (out0.val(c.0, c.1, c.2) == fill || reaches(
                    edge_ok,
                    th_seed_ok(*data, post, t0, t1),
                    c,
                )) by {
                    if c != sc && out0.val(c.0, c.1, c.2) != fill {
                        assert(reaches(edge_ok, th_seed_ok(*data, pre, t0, t1), c));
                        lemma_reach_mono(
                            edge_ok,
                            th_seed_ok(*data, pre, t0, t1),
                            th_seed_ok(*data, post, t0, t1),
                            c,
                        );
                    }
                }
                assert forall|a: (int, int, int), b: (int, int, int)|
                    out.in_bounds(a.0, a.1, a.2) && #[trigger] out.val(a.0, a.1, a.2) == fill && (
                    th_seed_ok(*data, post, t0, t1)(a) || out0.val(a.0, a.1, a.2) != fill)
                        && !in_queue(queue@, a) && #[trigger] edge_ok(a, b) && out0.in_bounds(
                        b.0,
                        b.1,
                        b.2,
                    ) implies out.val(b.0, b.1, b.2) == fill by {
                    assert(!in_queue(q0, a)) by {
                        if in_queue(q0, a) {
                            let wi = choose|wi: int|
                                0 <= wi < q0.len() && (#[trigger] q0[wi]).0 == a.0 && q0[wi].1
                                    == a.1 && q0[wi].2 == a.2;
                            assert(queue@[wi] == q0[wi]);
                            assert(in_queue(queue@, a));
                        }
                    }
                    if a.0 == sc.0 && a.1 == sc.1 && a.2 == sc.2 {
                        assert(queue@[queue@.len() - 1] == (k, j, i));
                        assert(in_queue(queue@, a));
                    } else {
                        assert(out_pre.val(a.0, a.1, a.2) == fill);
                        assert(th_seed_ok(*data, post, t0, t1)(a) ==> th_seed_ok(
                            *data,
                            pre,
                            t0,
                            t1,
                        )(a));
                        assert(out_pre.val(b.0, b.1, b.2) == fill);
                    }
                }
            }
        } else {
            proof {
                assert forall|s: (int, int, int)|
                    #[trigger] th_seed_ok(*data, post, t0, t1)(s) implies th_seed_ok(
                    *data,
                    pre,
                    t0,
                    t1,
                )(s) by {
                    if s == sc {
                        assert(data.val(sc.0, sc.1, sc.2) == val);
                        assert(false);
                    }
                }
                assert forall|qi: int| 0 <= qi < queue@.len() implies #[trigger] trav_entry_ok(
                    out0,
                    fill,
                    *out,
                    edge_ok,
                    th_seed_ok(*data, post, t0, t1),
                    queue@[qi],
                ) by {
                    assert(trav_entry_ok(
                        out0,
                        fill,
                        *out,
                        edge_ok,
                        th_seed_ok(*data, pre, t0, t1),
                        queue@[qi],
                    ));
                    lemma_reach_mono(
                        edge_ok,
                        th_seed_ok(*data, pre, t0, t1),
                        th_seed_ok(*data, post, t0, t1),
                        (queue@[qi].0 as int, queue@[qi].1 as int, queue@[qi].2 as int),
                    );
                }
                assert forall|c: (int, int, int)|
                    out0.in_bounds(c.0, c.1, c.2) && #[trigger] out.val(c.0, c.1, c.2) == fill
                        implies (out0.val(c.0, c.1, c.2) == fill || reaches(
                    edge_ok,
                    th_seed_ok(*data, post, t0, t1),
                    c,
                )) by {
                    if out0.val(c.0, c.1, c.2) != fill {
                        assert(reaches(edge_ok, th_seed_ok(*data, pre, t0, t1), c));
                        lemma_reach_mono(
                            edge_ok,
                            th_seed_ok(*data, pre, t0, t1),
                            th_seed_ok(*data, post, t0, t1),
                            c,
                        );
                    }
                }
            }
        }
        si = si + 1;
    }

    let ghost seed_ok = th_seed_ok(*data, seeds@, t0, t1);
    proof {
        assert(seeds@.take(seeds@.len() as int) =~= seeds@);
    }

    let offz = strct.dz / 2;
    let offy = strct.dy / 2;
    let offx = strct.dx / 2;

    while queue.len() != 0
        invariant
            edge_ok == th_edge(*data, out0, *strct, t0, t1, fill),
            seed_ok == th_seed_ok(*data, seeds@, t0, t1),
            data.wf(),
            strct.wf(),
            data.dims() == out0.dims(),
            data.dz + strct.dz <= usize::MAX,
            data.dy + strct.dy <= usize::MAX,
            data.dx + strct.dx <= usize::MAX,
            offz == strct.dz / 2,
            offy == strct.dy / 2,
            offx == strct.dx / 2,
            trav_inv(out0, fill, *out, queue@, edge_ok, seed_ok),
            trav_closed(out0, fill, *out, edge_ok, seed_ok, queue@),
        decreases count_unfilled(out.data@, fill) + queue@.len(),
    {
        proof {
            lemma_count_unfilled_nonneg(out.data@, fill);
        }
        let ghost queue_start = queue@;
        let c = queue.pop_back().unwrap();
        let (z, y, x) = c;
        let ghost cc = (z as int, y as int, x as int);
        let ghost m0 = count_unfilled(out.data@, fill) + queue@.len();
        proof {
            assert(queue_start[queue_start.len() - 1] == c);
            assert(trav_entry_ok(out0, fill, *out, edge_ok, seed_ok, queue_start[queue_start.len() - 1]));
            assert forall|qi: int| 0 <= qi < queue@.len() implies #[trigger] trav_entry_ok(
                out0,
                fill,
                *out,
                edge_ok,
                seed_ok,
                queue@[qi],
            ) by {
                assert(queue@[qi] == queue_start[qi]);
                assert(trav_entry_ok(out0, fill, *out, edge_ok, seed_ok, queue_start[qi]));
            }
            assert(queue@.push(c) =~= queue_start);
        }

        let mut kk: usize = 0;
        while kk < strct.dz
            invariant
                edge_ok == th_edge(*data, out0, *strct, t0, t1, fill),
                seed_ok == th_seed_ok(*data, seeds@, t0, t1),
                data.wf(),
                strct.wf(),
                data.dims() == out0.dims(),
                data.dz + strct.dz <= usize::MAX,
                data.dy + strct.dy <= usize::MAX,
                data.dx + strct.dx <= usize::MAX,
                offz == strct.dz / 2,
                offy == strct.dy / 2,
                offx == strct.dx / 2,
                kk <= strct.dz,
                cc == (z as int, y as int, x as int),
                out0.in_bounds(cc.0, cc.1, cc.2),
                reaches(edge_ok, seed_ok, cc),
                trav_inv(out0, fill, *out, queue@, edge_ok, seed_ok),
                trav_closed(out0, fill, *out, edge_ok, seed_ok, queue@.push((z, y, x))),
                count_unfilled(out.data@, fill) + queue@.len() <= m0,
                strel_prefix_handled(*out, fill, edge_ok, *strct, cc, kk as int, 0, 0),
            decreases strct.dz - kk,
        {
            let mut jj: usize = 0;
            while jj < strct.dy
                invariant
                    edge_ok == th_edge(*data, out0, *strct, t0, t1, fill),
                    seed_ok == th_seed_ok(*data, seeds@, t0, t1),
                    data.wf(),
                    strct.wf(),
                    data.dims() == out0.dims(),
                    data.dz + strct.dz <= usize::MAX,
                    data.dy + strct.dy <= usize::MAX,
                    data.dx + strct.dx <= usize::MAX,
                    offz == strct.dz / 2,
                    offy == strct.dy / 2,
                    offx == strct.dx / 2,
                    kk < strct.dz,
                    jj <= strct.dy,
                    cc == (z as int, y as int, x as int),
                    out0.in_bounds(cc.0, cc.1, cc.2),
                    reaches(edge_ok, seed_ok, cc),
                    trav_inv(out0, fill, *out, queue@, edge_ok, seed_ok),
                    trav_closed(out0, fill, *out, edge_ok, seed_ok, queue@.push((z, y, x))),
                    count_unfilled(out.data@, fill) + queue@.len() <= m0,
                    strel_prefix_handled(*out, fill, edge_ok, *strct, cc, kk as int, jj as int, 0),
                decreases strct.dy - jj,
            {
                let mut ii: usize = 0;
                while ii < strct.dx
                    invariant
                        edge_ok == th_edge(*data, out0, *strct, t0, t1, fill),
                        seed_ok == th_seed_ok(*data, seeds@, t0, t1),
                        data.wf(),
                        strct.wf(),
                        data.dims() == out0.dims(),
                        data.dz + strct.dz <= usize::MAX,
                        data.dy + strct.dy <= usize::MAX,
                        data.dx + strct.dx <= usize::MAX,
                        offz == strct.dz / 2,
                        offy == strct.dy / 2,
                        offx == strct.dx / 2,
                        kk < strct.dz,
                        jj < strct.dy,
                        ii <= strct.dx,
                        cc == (z as int, y as int, x as int),
                        out0.in_bounds(cc.0, cc.1, cc.2),
                        reaches(edge_ok, seed_ok, cc),
                        trav_inv(out0, fill, *out, queue@, edge_ok, seed_ok),
                        trav_closed(out0, fill, *out, edge_ok, seed_ok, queue@.push((z, y, x))),
                        count_unfilled(out.data@, fill) + queue@.len() <= m0,
                        strel_prefix_handled(
                            *out,
                            fill,
                            edge_ok,
                            *strct,
                            cc,
                            kk as int,
                            jj as int,
                            ii as int,
                        ),
                    decreases strct.dx - ii,
                {
                    let ghost tgt = strel_target(*strct, cc, kk as int, jj as int, ii as int);
                    let ghost out_pre = *out;
                    if strct.get(kk, jj, ii) != 0 {
                        let zs = z + kk;
                        let ys = y + jj;
                        let xs = x + ii;
                        if zs >= offz && zs - offz < data.dz && ys >= offy && ys - offy < data.dy
                            && xs >= offx && xs - offx < data.dx {
                            let nz = zs - offz;
                            let ny = ys - offy;
                            let nx = xs - offx;
                            proof {
                                assert(tgt == (nz as int, ny as int, nx as int));
                                assert(adj_strel(*strct, cc, tgt)) by {
                                    assert(strct.in_bounds(kk as int, jj as int, ii as int)
                                        && strct.val(kk as int, jj as int, ii as int) != 0 && tgt
                                        == strel_target(*strct, cc, kk as int, jj as int, ii as int));
                                }
                            }
                            th_visit(
                                data,
                                strct,
                                t0,
                                t1,
                                fill,
                                out,
                                &mut queue,
                                z,
                                y,
                                x,
                                nz,
                                ny,
                                nx,
                                Ghost(out0),
                                Ghost(seeds@),
                            );
                            proof {
                                assert forall|k2: int, j2: int, i2: int|
                                    0 <= k2 < strct.dz && 0 <= j2 < strct.dy && 0 <= i2 < strct.dx
                                        && off_lex_lt(
                                        k2,
                                        j2,
                                        i2,
                                        kk as int,
                                        jj as int,
                                        ii as int + 1,
                                    ) implies #[trigger] strel_handled(
                                    *out,
                                    fill,
                                    edge_ok,
                                    *strct,
                                    cc,
                                    k2,
                                    j2,
                                    i2,
                                ) by {
                                    let t2 = strel_target(*strct, cc, k2, j2, i2);
                                    if k2 == kk as int && j2 == jj as int && i2 == ii as int {
                                        assert(strel_handled(*out, fill, edge_ok, *strct, cc, k2, j2, i2));
                                    } else {
                                        assert(strel_handled(out_pre, fill, edge_ok, *strct, cc, k2, j2, i2));
                                        if strct.val(k2, j2, i2) != 0 && out.in_bounds(t2.0, t2.1, t2.2)
                                            && edge_ok(cc, t2) {
                                            assert(out_pre.val(t2.0, t2.1, t2.2) == fill);
                                            assert(out.val(t2.0, t2.1, t2.2) == fill);
                                        }
                                    }
                                }
                            }
                        } else {
                            proof {
                                assert(!out0.in_bounds(tgt.0, tgt.1, tgt.2));
                                assert forall|k2: int, j2: int, i2: int|
                                    0 <= k2 < strct.dz && 0 <= j2 < strct.dy && 0 <= i2 < strct.dx
                                        && off_lex_lt(
                                        k2,
                                        j2,
                                        i2,
                                        kk as int,
                                        jj as int,
                                        ii as int + 1,
                                    ) implies #[trigger] strel_handled(
                                    *out,
                                    fill,
                                    edge_ok,
                                    *strct,
                                    cc,
                                    k2,
                                    j2,
                                    i2,
                                ) by {
                                    if !(k2 == kk as int && j2 == jj as int && i2 == ii as int) {
                                        assert(strel_handled(out_pre, fill, edge_ok, *strct, cc, k2, j2, i2));
                                    }
                                }
                            }
                        }
                    } else {
                        proof {
                            assert forall|k2: int, j2: int, i2: int|
                                0 <= k2 < strct.dz && 0 <= j2 < strct.dy && 0 <= i2 < strct.dx
                                    && off_lex_lt(k2, j2, i2, kk as int, jj as int, ii as int + 1)
                                    implies #[trigger] strel_handled(
                                *out,
                                fill,
                                edge_ok,
                                *strct,
                                cc,
                                k2,
                                j2,
                                i2,
                            ) by {
                                if !(k2 == kk as int && j2 == jj as int && i2 == ii as int) {
                                    assert(strel_handled(out_pre, fill, edge_ok, *strct, cc, k2, j2, i2));
                                }
                            }
                        }
                    }
                    ii = ii + 1;
                }
                jj = jj + 1;
            }
            kk = kk + 1;
        }

        proof {
            lemma_count_unfilled_nonneg(out.data@, fill);
            assert forall|a: (int, int, int), b: (int, int, int)|
                out.in_bounds(a.0, a.1, a.2) && #[trigger] out.val(a.0, a.1, a.2) == fill && (
                seed_ok(a) || out0.val(a.0, a.1, a.2) != fill) && !in_queue(queue@, a)
                    && #[trigger] edge_ok(a, b) && out0.in_bounds(b.0, b.1, b.2) implies out.val(
                b.0,
                b.1,
                b.2,
            ) == fill by {
                if a == cc {
                    assert(adj_strel(*strct, cc, b));
                    let (k2, j2, i2) = choose|k2: int, j2: int, i2: int|
                        strct.in_bounds(k2, j2, i2) && #[trigger] strct.val(k2, j2, i2) != 0 && b
                            == strel_target(*strct, cc, k2, j2, i2);
                    assert(strel_handled(*out, fill, edge_ok, *strct, cc, k2, j2, i2));
                    assert(out.val(b.0, b.1, b.2) == fill);
                } else {
                    assert(!in_queue(queue@.push(c), a)) by {
                        if in_queue(queue@.push(c), a) {
                            let qi = choose|qi: int|
                                0 <= qi < queue@.push(c).len() && (#[trigger] queue@.push(
                                    c,
                                )[qi]).0 == a.0 && queue@.push(c)[qi].1 == a.1 && queue@.push(
                                    c,
                                )[qi].2 == a.2;
                            assert(qi < queue@.len());
                            assert(queue@[qi] == queue@.push(c)[qi]);
                            assert(in_queue(queue@, a));
                        }
                    }
                }
            }
        }
    }

    proof {
        assert forall|c: (int, int, int)|
            out0.in_bounds(c.0, c.1, c.2) implies #[trigger] out.val(c.0, c.1, c.2) == (
        if out0.val(c.0, c.1, c.2) == fill || th_reaches(
            *data,
            out0,
            *strct,
            seeds@,
            t0,
            t1,
            fill,
            c,
        ) {
            fill
        } else {
            out0.val(c.0, c.1, c.2)
        }) by {
            if th_reaches(*data, out0, *strct, seeds@, t0, t1, fill, c) {
                let member = |m: (int, int, int)|
                    out0.in_bounds(m.0, m.1, m.2) && out.val(m.0, m.1, m.2) == fill && (seed_ok(m)
                        || out0.val(m.0, m.1, m.2) != fill);
                let p = choose|p: Seq<(int, int, int)>|
                    ok_path(edge_ok, seed_ok, p) && p.last() == c;
                assert forall|s: (int, int, int)| #[trigger] seed_ok(s) implies member(s) by {}
                assert forall|a: (int, int, int), b: (int, int, int)|
                    member(a) && #[trigger] edge_ok(a, b) implies member(b) by {
                    assert(out.val(a.0, a.1, a.2) == fill);
                    assert(!in_queue(queue@, a));
                    assert(out0.in_bounds(b.0, b.1, b.2) && out0.val(b.0, b.1, b.2) != fill);
                    assert(out.val(b.0, b.1, b.2) == fill);
                }
                lemma_reach_in_closed_set(edge_ok, seed_ok, member, p);
            }
        }
    }
}


/// Admissible step of the in-place threshold flood fill: a
/// structuring-element neighbour whose original data value lies in
/// `[t0, t1]` and is not `fill` (cells that originally held `fill` are
/// indistinguishable from marked cells, so they act as walls).
pub open spec fn ip_edge(
    data0: Grid3<i16>,
    strct: Grid3<u8>,
    t0: i16,
    t1: i16,
    fill: i16,
) -> spec_fn((int, int, int), (int, int, int)) -> bool {
    |a: (int, int, int), b: (int, int, int)|
        adj_strel(strct, a, b) && data0.in_bounds(b.0, b.1, b.2) && t0 <= data0.val(b.0, b.1, b.2)
            && data0.val(b.0, b.1, b.2) <= t1 && data0.val(b.0, b.1, b.2) != fill
}

/// The seeds of the in-place threshold flood fill; a seed is admitted only
/// if its original data value lies in `[t0, t1]`.
pub open spec fn ip_seed_ok(
    data0: Grid3<i16>,
    seeds: Seq<(usize, usize, usize)>,
    t0: i16,
    t1: i16,
) -> spec_fn((int, int, int)) -> bool {
    |c: (int, int, int)|
        data0.in_bounds(c.0, c.1, c.2) && t0 <= data0.val(c.0, c.1, c.2) && data0.val(c.0, c.1, c.2)
            <= t1 && exists|si: int|
            0 <= si < seeds.len() && c == ((#[trigger] seeds[si]).2 as int, seeds[si].1 as int, seeds[si].0 as int)
}

/// The set grown by the in-place threshold flood fill.
pub open spec fn ip_reaches(
    data0: Grid3<i16>,
    strct: Grid3<u8>,
    seeds: Seq<(usize, usize, usize)>,
    t0: i16,
    t1: i16,
    fill: i16,
    c: (int, int, int),
) -> bool {
    reaches(ip_edge(data0, strct, t0, t1, fill), ip_seed_ok(data0, seeds, t0, t1), c)
}

/// Neighbour visit of the in-place threshold flood fill.
fn ip_visit(
    data: &mut Grid3<i16>,
    strct: &Grid3<u8>,
    t0: i16,
    t1: i16,
    fill: i16,
    queue: &mut VecDeque<(usize, usize, usize)>,
    z: usize,
    y: usize,
    x: usize,
    nz: usize,
    ny: usize,
    nx: usize,
    Ghost(data0): Ghost<Grid3<i16>>,
    Ghost(seeds): Ghost<Seq<(usize, usize, usize)>>,
)
    requires
        trav_inv(
            data0,
            fill,
            *old(data),
            old(queue)@,
            ip_edge(data0, *strct, t0, t1, fill),
            ip_seed_ok(data0, seeds, t0, t1),
        ),
        trav_closed(
            data0,
            fill,
            *old(data),
            ip_edge(data0, *strct, t0, t1, fill),
            ip_seed_ok(data0, seeds, t0, t1),
            old(queue)@.push((z, y, x)),
        ),
        data0.in_bounds(z as int, y as int, x as int),
        data0.in_bounds(nz as int, ny as int, nx as int),
        adj_strel(*strct, (z as int, y as int, x as int), (nz as int, ny as int, nx as int)),
        reaches(
            ip_edge(data0, *strct, t0, t1, fill),
            ip_seed_ok(data0, seeds, t0, t1),
            (z as int, y as int, x as int),
        ),
    ensures
        trav_inv(
            data0,
            fill,
            *final(data),
            final(queue)@,
            ip_edge(data0, *strct, t0, t1, fill),
            ip_seed_ok(data0, seeds, t0, t1),
        ),
        trav_closed(
            data0,
            fill,
            *final(data),
            ip_edge(data0, *strct, t0, t1, fill),
            ip_seed_ok(data0, seeds, t0, t1),
            final(queue)@.push((z, y, x)),
        ),
        forall|c: (int, int, int)|
            data0.in_bounds(c.0, c.1, c.2) && #[trigger] old(data).val(c.0, c.1, c.2) == fill
                ==> final(data).val(c.0, c.1, c.2) == fill,
        ip_edge(data0, *strct, t0, t1, fill)(
            (z as int, y as int, x as int),
            (nz as int, ny as int, nx as int),
        ) ==> final(data).val(nz as int, ny as int, nx as int) == fill,
        forall|a: (int, int, int)| in_queue(old(queue)@, a) ==> in_queue(final(queue)@, a),
        count_unfilled(final(data).data@, fill) + final(queue)@.len() <= count_unfilled(
            old(data).data@,
            fill,
        ) + old(queue)@.len(),
{
    let ghost cc = (z as int, y as int, x as int);
    let ghost nn = (nz as int, ny as int, nx as int);
    let nb = data.get(nz, ny, nx);
    let admitted = t0 <= nb && nb <= t1;
    let unmarked = nb != fill;
    proof {
        if unmarked {
            assert(data.val(nn.0, nn.1, nn.2) == data0.val(nn.0, nn.1, nn.2));
            assert(ip_edge(data0, *strct, t0, t1, fill)(cc, nn) <==> (admitted && data0.val(
                nn.0,
                nn.1,
                nn.2,
            ) != fill));
        }
    }
    trav_visit(
        data,
        fill,
        queue,
        z,
        y,
        x,
        nz,
        ny,
        nx,
        admitted,
        unmarked,
        Ghost(data0),
        Ghost(ip_edge(data0, *strct, t0, t1, fill)),
        Ghost(ip_seed_ok(data0, seeds, t0, t1)),
    );
}

/// In-place threshold flood fill over a structuring element with a LIFO
/// queue: the volume itself receives the fill value.
///
/// Each seed `(i, j, k) = (x, y, z)` is admitted, marked and enqueued only if
/// the value it holds when examined lies in `[t0, t1]`.  When a cell is
/// popped, every offset of the structuring element with a non-zero entry is
/// examined in order; an in-bounds target whose value lies in `[t0, t1]` and
/// differs from `fill` is overwritten with `fill` and enqueued.  A cell ends
/// up holding `fill` iff it originally held `fill`, is an admitted seed, or
/// an admissible step path from an admitted seed ends on it; all other cells
/// keep their original value.
pub fn generic_floodfill_threshold_inplace(
    data: &mut Grid3<i16>,
    seeds: &Vec<(usize, usize, usize)>,
    t0: i16,
    t1: i16,
    fill: i16,
    strct: &Grid3<u8>,
)
    requires
        old(data).wf(),
        strct.wf(),
        old(data).dz + strct.dz <= usize::MAX,
        old(data).dy + strct.dy <= usize::MAX,
        old(data).dx + strct.dx <= usize::MAX,
        forall|si: int|
            0 <= si < seeds@.len() ==> old(data).in_bounds(
                (#[trigger] seeds@[si]).2 as int,
                seeds@[si].1 as int,
                seeds@[si].0 as int,
            ),
    ensures
        final(data).wf(),
        final(data).dims() == old(data).dims(),
        forall|c: (int, int, int)|
            old(data).in_bounds(c.0, c.1, c.2) ==> #[trigger] final(data).val(c.0, c.1, c.2) == (
            if old(data).val(c.0, c.1, c.2) == fill || ip_reaches(
                *old(data),
                *strct,
                seeds@,
                t0,
                t1,
                fill,
                c,
            ) {
                fill
            } else {
                old(data).val(c.0, c.1, c.2)
            }),
{
    let ghost data0 = *old(data);
    let ghost edge_ok = ip_edge(data0, *strct, t0, t1, fill);

    let mut queue: VecDeque<(usize, usize, usize)> = VecDeque::new();

    let mut si: usize = 0;
    while si < seeds.len()
        invariant
            edge_ok == ip_edge(data0, *strct, t0, t1, fill),
            strct.wf(),
            si <= seeds@.len(),
            forall|sj: int|
                0 <= sj < seeds@.len() ==> data0.in_bounds(
                    (#[trigger] seeds@[sj]).2 as int,
                    seeds@[sj].1 as int,
                    seeds@[sj].0 as int,
                ),
            trav_inv(
                data0,
                fill,
                *data,
                queue@,
                edge_ok,
                ip_seed_ok(data0, seeds@.take(si as int), t0, t1),
            ),
            trav_closed(
                data0,
                fill,
                *data,
                edge_ok,
                ip_seed_ok(data0, seeds@.take(si as int), t0, t1),
                queue@,
            ),
            forall|c: (int, int, int)|
                data0.in_bounds(c.0, c.1, c.2) && #[trigger] data.val(c.0, c.1, c.2) == fill
                    && data0.val(c.0, c.1, c.2) != fill ==> in_queue(queue@, c),
        decreases seeds@.len() - si,
    {
        let (i, j, k) = seeds[si];
        let ghost pre = seeds@.take(si as int);
        let ghost post = seeds@.take(si as int + 1);
        let ghost sc = (k as int, j as int, i as int);
        proof {
            assert(seeds@[si as int] == (i, j, k));
            assert forall|s: (int, int, int)|
                #[trigger] ip_seed_ok(data0, pre, t0, t1)(s) implies ip_seed_ok(
                data0,
                post,
                t0,
                t1,
            )(s) by {
                let wi = choose|wi: int|
                    0 <= wi < pre.len() && s == ((#[trigger] pre[wi]).2 as int, pre[wi].1 as int, pre[wi].0 as int);
                assert(post[wi] == pre[wi]);
            }
            assert forall|s: (int, int, int)|
                #[trigger] ip_seed_ok(data0, post, t0, t1)(s) && s != sc implies ip_seed_ok(
                data0,
                pre,
                t0,
                t1,
            )(s) by {
                let wi = choose|wi: int|
                    0 <= wi < post.len() && s == ((#[trigger] post[wi]).2 as int, post[wi].1 as int, post[wi].0 as int);
                assert(wi < si as int);
                assert(pre[wi] == post[wi]);
            }
            assert(ip_seed_ok(data0, post, t0, t1)(sc) ==> (data0.in_bounds(sc.0, sc.1, sc.2)
                && t0 <= data0.val(sc.0, sc.1, sc.2) && data0.val(sc.0, sc.1, sc.2) <= t1));
        }
        let val = data.get(k, j, i);
        if t0 <= val && val <= t1 {
            let ghost q0 = queue@;
            let ghost data_pre = *data;
            queue.push_back((k, j, i));
            data.set(k, j, i, fill);
            proof {
                let q1 = queue@;
                assert(q1[q1.len() - 1] == (k, j, i));
                // the pushed cell is reached: as an admitted seed, as an
                // already-marked traversal cell, or as a wall seed whose
                // original value is the fill value itself
                assert(reaches(edge_ok, ip_seed_ok(data0, post, t0, t1), sc)) by {
                    if data_pre.val(sc.0, sc.1, sc.2) == fill {
                        if data0.val(sc.0, sc.1, sc.2) == fill {
                            assert(ip_seed_ok(data0, post, t0, t1)(sc)) by {
                                assert(post[si as int] == (i, j, k));
                            }
                            lemma_reach_seed(edge_ok, ip_seed_ok(data0, post, t0, t1), sc);
                        } else {
                            assert(reaches(edge_ok, ip_seed_ok(data0, pre, t0, t1), sc));
                            lemma_reach_mono(
                                edge_ok,
                                ip_seed_ok(data0, pre, t0, t1),
                                ip_seed_ok(data0, post, t0, t1),
                                sc,
                            );
                        }
                    } else {
                        assert(data0.val(sc.0, sc.1, sc.2) == val);
                        assert(ip_seed_ok(data0, post, t0, t1)(sc)) by {
                            assert(post[si as int] == (i, j, k));
                        }
                        lemma_reach_seed(edge_ok, ip_seed_ok(data0, post, t0, t1), sc);
                    }
                }
                assert forall|qi: int| 0 <= qi < q1.len() implies #[trigger] trav_entry_ok(
                    data0,
                    fill,
                    *data,
                    edge_ok,
                    ip_seed_ok(data0, post, t0, t1),
                    q1[qi],
                ) by {
                    if qi < q1.len() - 1 {
                        assert(q1[qi] == q0[qi]);
                        assert(trav_entry_ok(
                            data0,
                            fill,
                            data_pre,
                            edge_ok,
                            ip_seed_ok(data0, pre, t0, t1),
                            q1[qi],
                        ));
                        lemma_reach_mono(
                            edge_ok,
                            ip_seed_ok(data0, pre, t0, t1),
                            ip_seed_ok(data0, post, t0, t1),
                            (q1[qi].0 as int, q1[qi].1 as int, q1[qi].2 as int),
                        );
                    }
                }
                assert forall|s: (int, int, int)|
                    #[trigger] ip_seed_ok(data0, post, t0, t1)(s) implies data0.in_bounds(
                    s.0,
                    s.1,
                    s.2,
                ) && data.val(s.0, s.1, s.2) == fill by {
                    if s != sc {
                        assert(ip_seed_ok(data0, pre, t0, t1)(s));
                    }
                }
                assert forall|c: (int, int, int)|
                    data0.in_bounds(c.0, c.1, c.2) && #[trigger] data.val(c.0, c.1, c.2) == fill
                        implies (data0.val(c.0, c.1, c.2) == fill || reaches(
                    edge_ok,
                    ip_seed_ok(data0, post, t0, t1),
                    c,
                )) by {
                    if c != sc && data0.val(c.0, c.1, c.2) != fill {
                        assert(reaches(edge_ok, ip_seed_ok(data0, pre, t0, t1), c));
                        lemma_reach_mono(
                            edge_ok,
                            ip_seed_ok(data0, pre, t0, t1),
                            ip_seed_ok(data0, post, t0, t1),
                            c,
                        );
                    }
                }
                assert forall|c: (int, int, int)|
                    data0.in_bounds(c.0, c.1, c.2) && #[trigger] data.val(c.0, c.1, c.2) == fill
                        && data0.val(c.0, c.1, c.2) != fill implies in_queue(queue@, c) by {
                    if c != sc {
                        assert(data_pre.val(c.0, c.1, c.2) == fill);
                        assert(in_queue(q0, c));
                        let wi = choose|wi: int|
                            0 <= wi < q0.len() && (#[trigger] q0[wi]).0 == c.0 && q0[wi].1 == c.1
                                && q0[wi].2 == c.2;
                        assert(q1[wi] == q0[wi]);
                    }
                }
                assert forall|a: (int, int, int), b: (int, int, int)|
                    data.in_bounds(a.0, a.1, a.2) && #[trigger] data.val(a.0, a.1, a.2) == fill
                        && (ip_seed_ok(data0, post, t0, t1)(a) || data0.val(a.0, a.1, a.2) != fill)
                        && !in_queue(queue@, a) && #[trigger] edge_ok(a, b) && data0.in_bounds(
                        b.0,
                        b.1,
                        b.2,
                    ) implies data.val(b.0, b.1, b.2) == fill by {
                    assert(!in_queue(q0, a)) by {
                        if in_queue(q0, a) {
                            let wi = choose|wi: int|
                                0 <= wi < q0.len() && (#[trigger] q0[wi]).0 == a.0 && q0[wi].1
                                    == a.1 && q0[wi].2 == a.2;
                            assert(queue@[wi] == q0[wi]);
                            assert(in_queue(queue@, a));
                        }
                    }
                    if a.0 == sc.0 && a.1 == sc.1 && a.2 == sc.2 {
                        assert(queue@[queue@.len() - 1] == (k, j, i));
                        assert(in_queue(queue@, a));
                    } else {
                        assert(data_pre.val(a.0, a.1, a.2) == fill);
                        if data0.val(a.0, a.1, a.2) != fill {
                            assert(in_queue(q0, a));
                            assert(false);
                        } else {
                            assert(ip_seed_ok(data0, post, t0, t1)(a));
                            assert(ip_seed_ok(data0, pre, t0, t1)(a));
                            assert(data_pre.val(b.0, b.1, b.2) == fill);
                        }
                    }
                }
            }
        } else {
            proof {
                assert forall|s: (int, int, int)|
                    #[trigger] ip_seed_ok(data0, post, t0, t1)(s) implies (ip_seed_ok(
                    data0,
                    pre,
                    t0,
                    t1,
                )(s) || (s == sc && data.val(s.0, s.1, s.2) == fill)) by {
                    if s == sc {
                        if data.val(sc.0, sc.1, sc.2) != fill {
                            assert(data.val(sc.0, sc.1, sc.2) == data0.val(sc.0, sc.1, sc.2));
                            assert(false);
                        }
                    }
                }
                assert forall|qi: int| 0 <= qi < queue@.len() implies #[trigger] trav_entry_ok(
                    data0,
                    fill,
                    *data,
                    edge_ok,
                    ip_seed_ok(data0, post, t0, t1),
                    queue@[qi],
                ) by {
                    assert(trav_entry_ok(
                        data0,
                        fill,
                        *data,
                        edge_ok,
                        ip_seed_ok(data0, pre, t0, t1),
                        queue@[qi],
                    ));
                    lemma_reach_mono(
                        edge_ok,
                        ip_seed_ok(data0, pre, t0, t1),
                        ip_seed_ok(data0, post, t0, t1),
                        (queue@[qi].0 as int, queue@[qi].1 as int, queue@[qi].2 as int),
                    );
                }
                assert forall|c: (int, int, int)|
                    data0.in_bounds(c.0, c.1, c.2) && #[trigger] data.val(c.0, c.1, c.2) == fill
                        implies (data0.val(c.0, c.1, c.2) == fill || reaches(
                    edge_ok,
                    ip_seed_ok(data0, post, t0, t1),
                    c,
                )) by {
                    if data0.val(c.0, c.1, c.2) != fill {
                        assert(reaches(edge_ok, ip_seed_ok(data0, pre, t0, t1), c));
                        lemma_reach_mono(
                            edge_ok,
                            ip_seed_ok(data0, pre, t0, t1),
                            ip_seed_ok(data0, post, t0, t1),
                            c,
                        );
                    }
                }
                assert forall|a: (int, int, int), b: (int, int, int)|
                    data.in_bounds(a.0, a.1, a.2) && #[trigger] data.val(a.0, a.1, a.2) == fill
                        && (ip_seed_ok(data0, post, t0, t1)(a) || data0.val(a.0, a.1, a.2) != fill)
                        && !in_queue(queue@, a) && #[trigger] edge_ok(a, b) && data0.in_bounds(
                        b.0,
                        b.1,
                        b.2,
                    ) implies data.val(b.0, b.1, b.2) == fill by {
                    if data0.val(a.0, a.1, a.2) != fill {
                        assert(in_queue(queue@, a));
                        assert(false);
                    } else {
                        assert(ip_seed_ok(data0, post, t0, t1)(a));
                        assert(ip_seed_ok(data0, pre, t0, t1)(a) || data.val(a.0, a.1, a.2)
                            == fill);
                        if ip_seed_ok(data0, pre, t0, t1)(a) {
                        } else {
                            assert(a == sc);
                            assert(data0.val(sc.0, sc.1, sc.2) == fill);
                            assert(ip_seed_ok(data0, post, t0, t1)(sc));
                            assert(t0 <= fill && fill <= t1);
                            assert(data.val(sc.0, sc.1, sc.2) == fill);
                            assert(val == fill);
                            assert(false);
                        }
                    }
                }
            }
        }
        si = si + 1;
    }

    let ghost seed_ok = ip_seed_ok(data0, seeds@, t0, t1);
    proof {
        assert(seeds@.take(seeds@.len() as int) =~= seeds@);
    }

    let offz = strct.dz / 2;
    let offy = strct.dy / 2;
    let offx = strct.dx / 2;

    while queue.len() != 0
        invariant
            edge_ok == ip_edge(data0, *strct, t0, t1, fill),
            seed_ok == ip_seed_ok(data0, seeds@, t0, t1),
            strct.wf(),
            data0.dz + strct.dz <= usize::MAX,
            data0.dy + strct.dy <= usize::MAX,
            data0.dx + strct.dx <= usize::MAX,
            offz == strct.dz / 2,
            offy == strct.dy / 2,
            offx == strct.dx / 2,
            trav_inv(data0, fill, *data, queue@, edge_ok, seed_ok),
            trav_closed(data0, fill, *data, edge_ok, seed_ok, queue@),
        decreases count_unfilled(data.data@, fill) + queue@.len(),
    {
        proof {
            lemma_count_unfilled_nonneg(data.data@, fill);
        }
        let ghost queue_start = queue@;
        let c = queue.pop_back().unwrap();
        let (z, y, x) = c;
        let ghost cc = (z as int, y as int, x as int);
        let ghost m0 = count_unfilled(data.data@, fill) + queue@.len();
        proof {
            assert(queue_start[queue_start.len() - 1] == c);
            assert(trav_entry_ok(data0, fill, *data, edge_ok, seed_ok, queue_start[queue_start.len() - 1]));
            assert forall|qi: int| 0 <= qi < queue@.len() implies #[trigger] trav_entry_ok(
                data0,
                fill,
                *data,
                edge_ok,
                seed_ok,
                queue@[qi],
            ) by {
                assert(queue@[qi] == queue_start[qi]);
                assert(trav_entry_ok(data0, fill, *data, edge_ok, seed_ok, queue_start[qi]));
            }
            assert(queue@.push(c) =~= queue_start);
        }

        let mut kk: usize = 0;
        while kk < strct.dz
            invariant
                edge_ok == ip_edge(data0, *strct, t0, t1, fill),
                seed_ok == ip_seed_ok(data0, seeds@, t0, t1),
                strct.wf(),
                data0.dz + strct.dz <= usize::MAX,
                data0.dy + strct.dy <= usize::MAX,
                data0.dx + strct.dx <= usize::MAX,
                offz == strct.dz / 2,
                offy == strct.dy / 2,
                offx == strct.dx / 2,
                kk <= strct.dz,
                cc == (z as int, y as int, x as int),
                data0.in_bounds(cc.0, cc.1, cc.2),
                reaches(edge_ok, seed_ok, cc),
                trav_inv(data0, fill, *data, queue@, edge_ok, seed_ok),
                trav_closed(data0, fill, *data, edge_ok, seed_ok, queue@.push((z, y, x))),
                count_unfilled(data.data@, fill) + queue@.len() <= m0,
                strel_prefix_handled(*data, fill, edge_ok, *strct, cc, kk as int, 0, 0),
            decreases strct.dz - kk,
        {
            let mut jj: usize = 0;
            while jj < strct.dy
                invariant
                    edge_ok == ip_edge(data0, *strct, t0, t1, fill),
                    seed_ok == ip_seed_ok(data0, seeds@, t0, t1),
                    strct.wf(),
                    data0.dz + strct.dz <= usize::MAX,
                    data0.dy + strct.dy <= usize::MAX,
                    data0.dx + strct.dx <= usize::MAX,
                    offz == strct.dz / 2,
                    offy == strct.dy / 2,
                    offx == strct.dx / 2,
                    kk < strct.dz,
                    jj <= strct.dy,
                    cc == (z as int, y as int, x as int),
                    data0.in_bounds(cc.0, cc.1, cc.2),
                    reaches(edge_ok, seed_ok, cc),
                    trav_inv(data0, fill, *data, queue@, edge_ok, seed_ok),
                    trav_closed(data0, fill, *data, edge_ok, seed_ok, queue@.push((z, y, x))),
                    count_unfilled(data.data@, fill) + queue@.len() <= m0,
                    strel_prefix_handled(*data, fill, edge_ok, *strct, cc, kk as int, jj as int, 0),
                decreases strct.dy - jj,
            {
                let mut ii: usize = 0;
                while ii < strct.dx
                    invariant
                        edge_ok == ip_edge(data0, *strct, t0, t1, fill),
                        seed_ok == ip_seed_ok(data0, seeds@, t0, t1),
                        strct.wf(),
                        data0.dz + strct.dz <= usize::MAX,
                        data0.dy + strct.dy <= usize::MAX,
                        data0.dx + strct.dx <= usize::MAX,
                        offz == strct.dz / 2,
                        offy == strct.dy / 2,
                        offx == strct.dx / 2,
                        kk < strct.dz,
                        jj < strct.dy,
                        ii <= strct.dx,
                        cc == (z as int, y as int, x as int),
                        data0.in_bounds(cc.0, cc.1, cc.2),
                        reaches(edge_ok, seed_ok, cc),
                        trav_inv(data0, fill, *data, queue@, edge_ok, seed_ok),
                        trav_closed(data0, fill, *data, edge_ok, seed_ok, queue@.push((z, y, x))),
                        count_unfilled(data.data@, fill) + queue@.len() <= m0,
                        strel_prefix_handled(
                            *data,
                            fill,
                            edge_ok,
                            *strct,
                            cc,
                            kk as int,
                            jj as int,
                            ii as int,
                        ),
                    decreases strct.dx - ii,
                {
                    let ghost tgt = strel_target(*strct, cc, kk as int, jj as int, ii as int);
                    let ghost data_pre = *data;
                    if strct.get(kk, jj, ii) != 0 {
                        let zs = z + kk;
                        let ys = y + jj;
                        let xs = x + ii;
                        if zs >= offz && zs - offz < data.dz && ys >= offy && ys - offy < data.dy
                            && xs >= offx && xs - offx < data.dx {
                            let nz = zs - offz;
                            let ny = ys - offy;
                            let nx = xs - offx;
                            proof {
                                assert(tgt == (nz as int, ny as int, nx as int));
                                assert(adj_strel(*strct, cc, tgt)) by {
                                    assert(strct.in_bounds(kk as int, jj as int, ii as int)
                                        && strct.val(kk as int, jj as int, ii as int) != 0 && tgt
                                        == strel_target(*strct, cc, kk as int, jj as int, ii as int));
                                }
                            }
                            ip_visit(
                                data,
                                strct,
                                t0,
                                t1,
                                fill,
                                &mut queue,
                                z,
                                y,
                                x,
                                nz,
                                ny,
                                nx,
                                Ghost(data0),
                                Ghost(seeds@),
                            );
                            proof {
                                assert forall|k2: int, j2: int, i2: int|
                                    0 <= k2 < strct.dz && 0 <= j2 < strct.dy && 0 <= i2 < strct.dx
                                        && off_lex_lt(
                                        k2,
                                        j2,
                                        i2,
                                        kk as int,
                                        jj as int,
                                        ii as int + 1,
                                    ) implies #[trigger] strel_handled(
                                    *data,
                                    fill,
                                    edge_ok,
                                    *strct,
                                    cc,
                                    k2,
                                    j2,
                                    i2,
                                ) by {
                                    let t2 = strel_target(*strct, cc, k2, j2, i2);
                                    if k2 == kk as int && j2 == jj as int && i2 == ii as int {
                                        assert(strel_handled(*data, fill, edge_ok, *strct, cc, k2, j2, i2));
                                    } else {
                                        assert(strel_handled(data_pre, fill, edge_ok, *strct, cc, k2, j2, i2));
                                        if strct.val(k2, j2, i2) != 0 && data.in_bounds(t2.0, t2.1, t2.2)
                                            && edge_ok(cc, t2) {
                                            assert(data_pre.val(t2.0, t2.1, t2.2) == fill);
                                            assert(data.val(t2.0, t2.1, t2.2) == fill);
                                        }
                                    }
                                }
                            }
                        } else {
                            proof {
                                assert(!data0.in_bounds(tgt.0, tgt.1, tgt.2));
                                assert forall|k2: int, j2: int, i2: int|
                                    0 <= k2 < strct.dz && 0 <= j2 < strct.dy && 0 <= i2 < strct.dx
                                        && off_lex_lt(
                                        k2,
                                        j2,
                                        i2,
                                        kk as int,
                                        jj as int,
                                        ii as int + 1,
                                    ) implies #[trigger] strel_handled(
                                    *data,
                                    fill,
                                    edge_ok,
                                    *strct,
                                    cc,
                                    k2,
                                    j2,
                                    i2,
                                ) by {
                                    if !(k2 == kk as int && j2 == jj as int && i2 == ii as int) {
                                        assert(strel_handled(data_pre, fill, edge_ok, *strct, cc, k2, j2, i2));
                                    }
                                }
                            }
                        }
                    } else {
                        proof {
                            assert forall|k2: int, j2: int, i2: int|
                                0 <= k2 < strct.dz && 0 <= j2 < strct.dy && 0 <= i2 < strct.dx
                                    && off_lex_lt(k2, j2, i2, kk as int, jj as int, ii as int + 1)
                                    implies #[trigger] strel_handled(
                                *data,
                                fill,
                                edge_ok,
                                *strct,
                                cc,
                                k2,
                                j2,
                                i2,
                            ) by {
                                if !(k2 == kk as int && j2 == jj as int && i2 == ii as int) {
                                    assert(strel_handled(data_pre, fill, edge_ok, *strct, cc, k2, j2, i2));
                                }
                            }
                        }
                    }
                    ii = ii + 1;
                }
                jj = jj + 1;
            }
            kk = kk + 1;
        }

        proof {
            lemma_count_unfilled_nonneg(data.data@, fill);
            assert forall|a: (int, int, int), b: (int, int, int)|
                data.in_bounds(a.0, a.1, a.2) && #[trigger] data.val(a.0, a.1, a.2) == fill && (
                seed_ok(a) || data0.val(a.0, a.1, a.2) != fill) && !in_queue(queue@, a)
                    && #[trigger] edge_ok(a, b) && data0.in_bounds(b.0, b.1, b.2) implies data.val(
                b.0,
                b.1,
                b.2,
            ) == fill by {
                if a == cc {
                    assert(adj_strel(*strct, cc, b));
                    let (k2, j2, i2) = choose|k2: int, j2: int, i2: int|
                        strct.in_bounds(k2, j2, i2) && #[trigger] strct.val(k2, j2, i2) != 0 && b
                            == strel_target(*strct, cc, k2, j2, i2);
                    assert(strel_handled(*data, fill, edge_ok, *strct, cc, k2, j2, i2));
                    assert(data.val(b.0, b.1, b.2) == fill);
                } else {
                    assert(!in_queue(queue@.push(c), a)) by {
                        if in_queue(queue@.push(c), a) {
                            let qi = choose|qi: int|
                                0 <= qi < queue@.push(c).len() && (#[trigger] queue@.push(
                                    c,
                                )[qi]).0 == a.0 && queue@.push(c)[qi].1 == a.1 && queue@.push(
                                    c,
                                )[qi].2 == a.2;
                            assert(qi < queue@.len());
                            assert(queue@[qi] == queue@.push(c)[qi]);
                            assert(in_queue(queue@, a));
                        }
                    }
                }
            }
        }
    }

    proof {
        assert forall|c: (int, int, int)|
            data0.in_bounds(c.0, c.1, c.2) implies #[trigger] data.val(c.0, c.1, c.2) == (
        if data0.val(c.0, c.1, c.2) == fill || ip_reaches(data0, *strct, seeds@, t0, t1, fill, c) {
            fill
        } else {
            data0.val(c.0, c.1, c.2)
        }) by {
            if ip_reaches(data0, *strct, seeds@, t0, t1, fill, c) {
                let member = |m: (int, int, int)|
                    data0.in_bounds(m.0, m.1, m.2) && data.val(m.0, m.1, m.2) == fill && (seed_ok(m)
                        || data0.val(m.0, m.1, m.2) != fill);
                let p = choose|p: Seq<(int, int, int)>|
                    ok_path(edge_ok, seed_ok, p) && p.last() == c;
                assert forall|s: (int, int, int)| #[trigger] seed_ok(s) implies member(s) by {}
                assert forall|a: (int, int, int), b: (int, int, int)|
                    member(a) && #[trigger] edge_ok(a, b) implies member(b) by {
                    assert(data.val(a.0, a.1, a.2) == fill);
                    assert(!in_queue(queue@, a));
                    assert(data0.in_bounds(b.0, b.1, b.2) && data0.val(b.0, b.1, b.2) != fill);
                    assert(data.val(b.0, b.1, b.2) == fill);
                }
                lemma_reach_in_closed_set(edge_ok, seed_ok, member, p);
            }
        }
    }
}


/// Number of cells of `s` that hold label `l`.
pub open spec fn count_label(s: Seq<u16>, l: int) -> int
    decreases s.len(),
{
    if s.len() == 0 {
        0
    } else {
        count_label(s.drop_last(), l) + if s.last() == l {
            1int
        } else {
            0int
        }
    }
}

pub proof fn lemma_count_label_bounds(s: Seq<u16>, l: int)
    ensures
        0 <= count_label(s, l) <= s.len(),
    decreases s.len(),
{
    if s.len() > 0 {
        lemma_count_label_bounds(s.drop_last(), l);
    }
}

/// Extending the counted prefix by one cell raises the count of that cell's
/// label by one.
pub proof fn lemma_count_label_take_step(s: Seq<u16>, l: int, i: int)
    requires
        0 <= i < s.len(),
    ensures
        count_label(s.take(i + 1), l) == count_label(s.take(i), l) + if s[i] == l {
            1int
        } else {
            0int
        },
{
    assert(s.take(i + 1).drop_last() =~= s.take(i));
    assert(s.take(i + 1).last() == s[i]);
}

/// Some non-zero label occurs in `s` and occurs at most `max_size` times:
/// the condition under which the hole filler changes the mask.
pub open spec fn has_small_label(s: Seq<u16>, nlabels: u32, max_size: u32) -> bool {
    exists|l: int| 1 <= l <= nlabels && 0 < #[trigger] count_label(s, l) <= max_size
}

/// Hole filling by connected-component size.
///
/// Labels are histogrammed; when every non-zero label that occurs has more
/// than `max_size` cells, the mask is left untouched and the call reports
/// `false`.  Otherwise every cell whose label occurs at most `max_size`
/// times receives the reserved auto-filled value 254 -- the background label
/// 0 included, so that background fragments enclosed by the segmentation are
/// filled along -- every other cell keeps its value, and the call reports
/// `true`.
pub fn fill_holes_automatically_internal(
    mask: &mut Grid3<u8>,
    labels: &Grid3<u16>,
    nlabels: u32,
    max_size: u32,
) -> (r: bool)
    requires
        labels.wf(),
        old(mask).wf(),
        labels.dims() == old(mask).dims(),
        forall|i: int| 0 <= i < labels.data@.len() ==> #[trigger] labels.data@[i] <= nlabels,
        labels.data@.len() <= u32::MAX,
        nlabels + 1 <= usize::MAX,
    ensures
        final(mask).wf(),
        final(mask).dims() == old(mask).dims(),
        r == has_small_label(labels.data@, nlabels, max_size),
        !r ==> final(mask).data@ == old(mask).data@,
        r ==> forall|i: int|
            0 <= i < old(mask).data@.len() ==> #[trigger] final(mask).data@[i] == (if count_label(
                labels.data@,
                labels.data@[i] as int,
            ) <= max_size {
                254u8
            } else {
                old(mask).data@[i]
            }),
        r ==> forall|z: int, y: int, x: int|
            old(mask).in_bounds(z, y, x) ==> #[trigger] final(mask).val(z, y, x) == (
            if count_label(labels.data@, labels.val(z, y, x) as int) <= max_size {
                254u8
            } else {
                old(mask).val(z, y, x)
            }),
{
    let n = labels.data.len();
    let nsz = nlabels as usize + 1;
    let mut sizes: Vec<u32> = vec![0u32; nsz];

    let mut idx: usize = 0;
    while idx < n
        invariant
            labels.wf(),
            n == labels.data@.len(),
            n <= u32::MAX,
            idx <= n,
            sizes@.len() == nlabels + 1,
            forall|i: int| 0 <= i < labels.data@.len() ==> #[trigger] labels.data@[i] <= nlabels,
            forall|l: int|
                0 <= l <= nlabels ==> #[trigger] sizes@[l] == count_label(
                    labels.data@.take(idx as int),
                    l,
                ),
        decreases n - idx,
    {
        let label = labels.data[idx] as usize;
        proof {
            lemma_count_label_bounds(labels.data@.take(idx as int), label as int);
            assert(labels.data@.take(idx as int).len() == idx as int);
            assert forall|l: int| 0 <= l <= nlabels implies #[trigger] count_label(
                labels.data@.take(idx as int + 1),
                l,
            ) == count_label(labels.data@.take(idx as int), l) + (if labels.data@[idx as int] == l {
                1int
            } else {
                0int
            }) by {
                lemma_count_label_take_step(labels.data@, l, idx as int);
            }
        }
        let c = sizes[label];
        sizes[label] = c + 1;
        idx = idx + 1;
    }
    proof {
        assert(labels.data@.take(n as int) =~= labels.data@);
    }

    let mut modified = false;
    let mut l: usize = 1;
    while l < nsz
        invariant
            nsz == nlabels + 1,
            sizes@.len() == nlabels + 1,
            1 <= l <= nsz,
            forall|l2: int| 0 <= l2 <= nlabels ==> #[trigger] sizes@[l2] == count_label(labels.data@, l2),
            modified == exists|l2: int|
                1 <= l2 < l && 0 < #[trigger] count_label(labels.data@, l2) <= max_size,
        decreases nsz - l,
    {
        let sz = sizes[l];
        if sz > 0 && sz <= max_size {
            proof {
                assert(0 < count_label(labels.data@, l as int) <= max_size);
            }
            modified = true;
        } else {
            proof {
                assert forall|l2: int|
                    1 <= l2 < l + 1 && 0 < #[trigger] count_label(labels.data@, l2) <= max_size
                        implies 1 <= l2 < l by {
                    if l2 == l {
                        assert(sizes@[l2] == count_label(labels.data@, l2));
                    }
                }
            }
        }
        l = l + 1;
    }

    if !modified {
        return false;
    }

    let ghost mask0 = *old(mask);
    let mut idx2: usize = 0;
    while idx2 < n
        invariant
            labels.wf(),
            mask.wf(),
            mask.dz == mask0.dz,
            mask.dy == mask0.dy,
            mask.dx == mask0.dx,
            mask.data@.len() == mask0.data@.len(),
            n == labels.data@.len(),
            labels.dims() == mask0.dims(),
            mask0.wf(),
            idx2 <= n,
            forall|i: int| 0 <= i < labels.data@.len() ==> #[trigger] labels.data@[i] <= nlabels,
            sizes@.len() == nlabels + 1,
            forall|l2: int| 0 <= l2 <= nlabels ==> #[trigger] sizes@[l2] == count_label(labels.data@, l2),
            forall|i: int|
                0 <= i < idx2 ==> #[trigger] mask.data@[i] == (if count_label(
                    labels.data@,
                    labels.data@[i] as int,
                ) <= max_size {
                    254u8
                } else {
                    mask0.data@[i]
                }),
            forall|i: int| idx2 <= i < n ==> #[trigger] mask.data@[i] == mask0.data@[i],
        decreases n - idx2,
    {
        let label = labels.data[idx2] as usize;
        if sizes[label] <= max_size {
            mask.data[idx2] = 254;
        }
        idx2 = idx2 + 1;
    }

    proof {
        assert forall|z: int, y: int, x: int| mask0.in_bounds(z, y, x) implies #[trigger] mask.val(
            z,
            y,
            x,
        ) == (if count_label(labels.data@, labels.val(z, y, x) as int) <= max_size {
            254u8
        } else {
            mask0.val(z, y, x)
        }) by {
            crate::grid::lemma_flat3_bounds(
                mask0.dz as int,
                mask0.dy as int,
                mask0.dx as int,
                z,
                y,
                x,
            );
        }
    }
    true
}


} // verus!
